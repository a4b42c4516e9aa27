//! Laying out a fresh region.
use crate::global_free_list::{generation_of, index_of, pack_index};
use crate::header::layout::{
    free_stack_bytes, AllocatorLayout, HEADER_SIZE, NODE_SIZE, SLAB_META_SIZE, WORKER_HEADS_SIZE,
};
use crate::header::{Header, MAGIC, VERSION};
use crate::cache_aligned::CacheAligned;
use crate::index::{NULL_U16, NULL_U32, NULL_U64};
use crate::init::{cached, Plan};
use crate::linked_list_node::{GLOBAL_NEXT, WORKER_LOCAL_NEXT, WORKER_LOCAL_PREV};
use crate::memory::{
    agree, same_outside, store_u16, store_u32, store_u64, store_u8, u16_at, u32_at, u64_at, u8_at,
    word,
};
use crate::records::{lemma_record_frame, lemma_record_within, record, record_offset};
use crate::region::{
    CachedLayout, CLAIMED, GLOBAL_HEAD, LIST_HEADS, OUTSTANDING, REMOTE_FREE_STACK_HEAD,
    REMOTE_HEAD,
};
use crate::slab_meta::SlabMeta;
use crate::state::State;
use vstd::prelude::*;

verus! {

/// The state of a region in which no worker has taken anything.
pub open spec fn fresh_state(l: CachedLayout) -> State {
    State {
        generation: 0,
        lists: Seq::new(
            (1 + 10 * l.num_workers) as nat,
            |k: int|
                if k == 0 {
                    Seq::new(l.num_slabs as nat, |i: int| i as u32)
                } else {
                    Seq::empty()
                },
        ),
        remote: Seq::new(l.num_workers as nat, |w: int| Seq::empty()),
        claimed: Seq::new(l.num_workers as nat, |w: int| 0u8),
        outstanding: Seq::new(l.num_workers as nat, |w: int| 0u64),
        assigned: Seq::new(l.num_slabs as nat, |i: int| NULL_U32),
        class: Seq::new(l.num_slabs as nat, |i: int| 0u64),
        slab_heads: Seq::new(l.num_slabs as nat, |i: int| NULL_U16),
        stack: Seq::new(l.num_slabs as nat, |i: int| Seq::empty()),
        cap: Seq::new(l.num_slabs as nat, |i: int| 0u16),
    }
}

/// The header of a region with the given layout, in which all slabs are free.
pub open spec fn is_header(header: Header, l: CachedLayout) -> bool {
    &&& header.magic == MAGIC
    &&& header.version == VERSION
    &&& CachedLayout::of(header) == l
}

/// The region was laid out and not used yet.
pub open spec fn is_fresh(mem: Seq<u8>, l: CachedLayout) -> bool {
    &&& is_header(Header::of(mem), l)
    &&& l.holds(mem, fresh_state(l))
    &&& fresh_state(l).ok(l)
    &&& fresh_state(l).accounted(l)
    &&& forall|i: int| 0 <= i < l.num_slabs ==> #[trigger] l.tables(mem).wprev[i] == NULL_U32
    &&& forall|i: int| 0 <= i < l.num_slabs ==> #[trigger] l.tables(mem).wnext[i] == NULL_U32
}

/// A fresh region is in order, nothing in it is in use, and no worker owns a slab.
pub proof fn law_fresh(l: CachedLayout)
    requires
        l.wf(),
    ensures
        fresh_state(l).ok(l),
        fresh_state(l).accounted(l),
        fresh_state(l).no_idle_slab(),
        fresh_state(l).live(l) == Set::<int>::empty(),
{
    let s = fresh_state(l);
    assert forall|k: int, j: int|
        0 <= k < s.lists.len() && 0 <= j < s.lists[k].len() implies (#[trigger] s.lists[k][j])
        < s.places().len() && s.places()[s.lists[k][j] as int] == k by {}
    assert forall|i: int| 0 <= i < s.places().len() && s.places()[i] != -1 implies 0
        <= #[trigger] s.places()[i] < s.lists.len() && s.lists[s.places()[i]].contains(
        i as u32,
    ) by {
        assert(s.lists[0][i] == i as u32);
    }
    assert forall|i: int| 0 <= i < l.num_slabs implies #[trigger] s.slab_ok(l, i) by {}
    assert forall|w: int| 0 <= w < l.num_workers implies #[trigger] s.outstanding[w]
        == s.used_bytes(w, l.num_slabs as int) by {
        lemma_unused(l, w, l.num_slabs as int);
    }
    assert(s.live(l) =~= Set::empty()) by {
        assert forall|off: int| !s.live(l).contains(off) by {
            if s.is_slot(l, off) {
                vstd::arithmetic::div_mod::lemma_div_pos_is_pos(
                    off - l.slabs_offset,
                    l.slab_size as int,
                );
            }
        }
    }
}

proof fn lemma_unused(l: CachedLayout, worker: int, n: int)
    requires
        0 <= worker < l.num_workers,
        n <= l.num_slabs,
    ensures
        fresh_state(l).used_bytes(worker, n) == 0,
    decreases n,
{
    if n > 0 {
        lemma_unused(l, worker, n - 1);
    }
}

/// Initialize the allocator's backing memory, which is zero so far where the free stacks go.
pub fn allocator(mem: &mut [u8], slab_size: u32, num_workers: u32, layout: AllocatorLayout)
    requires
        ({
            let l = cached(Plan { num_workers, layout }, slab_size);
            &&& l.wf()
            &&& l.fits(old(mem)@.len() as int)
            &&& forall|i: int|
                l.slab_free_stacks_offset <= i < l.slabs_offset ==> #[trigger] old(mem)@[i] == 0
        }),
    ensures
        is_fresh(final(mem)@, cached(Plan { num_workers, layout }, slab_size)),
        agree(old(mem)@, final(mem)@, layout.slabs_offset as int, old(mem)@.len() as int),
        final(mem)@.len() == old(mem)@.len(),
{
    let ghost l = cached(Plan { num_workers, layout }, slab_size);
    let ghost m0 = mem@;
    proof {
        l.lemma_bounds();
    }
    init_header(mem, slab_size, num_workers, layout);
    let ghost m1 = mem@;
    worker_local_lists(mem, num_workers, Ghost(l));
    let ghost m2 = mem@;
    free_list_elements(mem, layout, Ghost(l));
    let ghost m3 = mem@;
    slab_shared_meta(mem, layout, Ghost(l));
    proof {
        let m4 = mem@;
        let s = fresh_state(l);
        let t = l.tables(m4);
        Header::lemma_same(m1, m4);
        l.lemma_workers_same(m2, m4);
        l.lemma_nodes_same(m3, m4);
        l.lemma_ghead_same(m3, m4);
        assert forall|i: int| 0 <= i < l.num_slabs implies t.stack[i] == Seq::<u16>::empty()
            && t.cap[i] == 0 by {
            l.lemma_stack_within(i);
            lemma_zero(m4, l.stack_at(i), 2);
            lemma_zero(m4, l.stack_at(i) + 2, 2);
            assert(record(
                l.slab_free_stacks_offset as int,
                free_stack_bytes(l.slab_size as int),
                i,
                2,
            ) == l.stack_at(i) + 2);
            assert(t.stack[i] =~= Seq::empty());
        }
        assert(t.stack =~= s.stack);
        assert(t.cap =~= s.cap);
        assert(t.claimed =~= s.claimed);
        assert(t.outstanding =~= s.outstanding);
        assert(t.assigned =~= s.assigned);
        assert(t.class =~= s.class);
        assert(t.slab_heads =~= s.slab_heads);
        assert(crate::links::linked(t.gnext, index_of(t.ghead), s.lists[0]));
        assert forall|k: int| 1 <= k < s.lists.len() implies crate::links::dlinked(
            t.wprev,
            t.wnext,
            t.heads[k - 1],
            #[trigger] s.lists[k],
        ) by {
            let j = k - 1;
            assert(t.heads[j] == NULL_U32);
        }
        assert forall|w: int| 0 <= w < s.remote.len() implies l.thread().threads(
            t.data,
            t.rhead[w] as int,
            #[trigger] s.remote[w],
        ) by {
            assert(t.rhead[w] == NULL_U64);
        }
        reveal(CachedLayout::holds);
        law_fresh(l);
    }
}

/// Zero bytes form a zero word.
proof fn lemma_zero(mem: Seq<u8>, off: int, width: nat)
    requires
        forall|i: int| off <= i < off + width ==> #[trigger] mem[i] == 0,
    ensures
        word(mem, off, width) == 0,
    decreases width,
{
    if width > 0 {
        lemma_zero(mem, off + 1, (width - 1) as nat);
    }
}

/// Writes the header.
fn init_header(mem: &mut [u8], slab_size: u32, num_workers: u32, layout: AllocatorLayout)
    requires
        old(mem)@.len() >= HEADER_SIZE,
    ensures
        is_header(Header::of(final(mem)@), cached(Plan { num_workers, layout }, slab_size)),
        same_outside(old(mem)@, final(mem)@, 0, HEADER_SIZE as int),
{
    let header = Header {
        magic: MAGIC,
        version: VERSION,
        num_workers,
        num_slabs: layout.num_slabs,
        slab_size,
        free_list_elements_offset: layout.free_list_elements_offset,
        slab_shared_meta_offset: layout.slab_shared_meta_offset,
        slab_free_stacks_offset: layout.slab_free_stacks_offset,
        slabs_offset: layout.slabs_offset,
        global_free_list_head: CacheAligned(pack_index(0, NULL_U32)),
    };
    header.write(mem);
}

/// What the record of a worker that never was says.
spec fn blank_worker(mem: Seq<u8>, at: int) -> bool {
    &&& u8_at(mem, at + CLAIMED) == 0
    &&& u64_at(mem, at + OUTSTANDING) == 0
    &&& u64_at(mem, at + REMOTE_HEAD) == NULL_U64
    &&& forall|k: int| 0 <= k < 10 ==> #[trigger] u32_at(mem, at + LIST_HEADS + 4 * k) == NULL_U32
}

/// Clears the record of a worker.
fn clear_worker(mem: &mut [u8], at: usize)
    requires
        at + WORKER_HEADS_SIZE <= old(mem)@.len() <= usize::MAX,
    ensures
        blank_worker(final(mem)@, at as int),
        same_outside(old(mem)@, final(mem)@, at as int, at + WORKER_HEADS_SIZE),
{
    let ghost m0 = mem@;
    store_u8(mem, at + CLAIMED, 0);
    let ghost m1 = mem@;
    store_u64(mem, at + OUTSTANDING, 0);
    let ghost m2 = mem@;
    store_u64(mem, at + REMOTE_HEAD, NULL_U64);
    proof {
        crate::memory::lemma_word_same(m1, mem@, at as int, 1);
        crate::memory::lemma_word_same(m2, mem@, at + 8, 8);
    }
    let ghost m3 = mem@;
    let mut k: usize = 0;
    while k < 10
        invariant
            k <= 10,
            at + WORKER_HEADS_SIZE <= mem@.len() <= usize::MAX,
            same_outside(m0, mem@, at as int, at + WORKER_HEADS_SIZE),
            same_outside(m3, mem@, at + LIST_HEADS, at + WORKER_HEADS_SIZE),
            forall|j: int|
                0 <= j < k ==> #[trigger] u32_at(mem@, at + LIST_HEADS + 4 * j) == NULL_U32,
        decreases 10 - k,
    {
        let ghost before = mem@;
        store_u32(mem, at + LIST_HEADS + 4 * k, NULL_U32);
        proof {
            assert forall|j: int| 0 <= j < k + 1 implies #[trigger] u32_at(
                mem@,
                at + LIST_HEADS + 4 * j,
            ) == NULL_U32 by {
                if j < k {
                    crate::memory::lemma_word_same(before, mem@, at + LIST_HEADS + 4 * j, 4);
                    assert(u32_at(before, at + LIST_HEADS + 4 * j) == NULL_U32);
                }
            }
        }
        k = k + 1;
    }
    proof {
        crate::memory::lemma_word_same(m3, mem@, at as int, 1);
        crate::memory::lemma_word_same(m3, mem@, at + 8, 8);
        crate::memory::lemma_word_same(m3, mem@, at + 16, 8);
    }
}

/// Clears the records of all workers.
fn worker_local_lists(mem: &mut [u8], num_workers: u32, Ghost(l): Ghost<CachedLayout>)
    requires
        l.wf(),
        l.fits(old(mem)@.len() as int),
        num_workers == l.num_workers,
    ensures
        ({
            let t = l.tables(final(mem)@);
            &&& forall|w: int| 0 <= w < num_workers ==> #[trigger] t.claimed[w] == 0
            &&& forall|w: int| 0 <= w < num_workers ==> #[trigger] t.outstanding[w] == 0
            &&& forall|w: int| 0 <= w < num_workers ==> #[trigger] t.rhead[w] == NULL_U64
            &&& forall|k: int| 0 <= k < 10 * num_workers ==> #[trigger] t.heads[k] == NULL_U32
        }),
        same_outside(
            old(mem)@,
            final(mem)@,
            HEADER_SIZE as int,
            HEADER_SIZE + num_workers * WORKER_HEADS_SIZE,
        ),
{
    let ghost m0 = mem@;
    proof {
        l.lemma_bounds();
    }
    let mut i: u32 = 0;
    while i < num_workers
        invariant
            i <= num_workers,
            num_workers == l.num_workers,
            l.wf(),
            l.fits(mem@.len() as int),
            l.slabs_offset <= l.end(),
            0 <= l.num_slabs * free_stack_bytes(l.slab_size as int),
            same_outside(
                m0,
                mem@,
                HEADER_SIZE as int,
                HEADER_SIZE + num_workers * WORKER_HEADS_SIZE,
            ),
            forall|w: int| 0 <= w < i ==> blank_worker(mem@, #[trigger] l.worker_at(w)),
        decreases num_workers - i,
    {
        let ghost before = mem@;
        let at = record_offset(
            HEADER_SIZE,
            WORKER_HEADS_SIZE,
            i as usize,
            0,
            Ghost(num_workers as int),
        );
        clear_worker(mem, at);
        proof {
            assert forall|w: int| 0 <= w < i + 1 implies blank_worker(
                mem@,
                #[trigger] l.worker_at(w),
            ) by {
                if w < i {
                    let o = l.worker_at(w);
                    assert(blank_worker(before, o));
                    crate::memory::lemma_word_same(before, mem@, o, 1);
                    crate::memory::lemma_word_same(before, mem@, o + 8, 8);
                    crate::memory::lemma_word_same(before, mem@, o + 16, 8);
                    assert forall|k: int| 0 <= k < 10 implies #[trigger] u32_at(
                        mem@,
                        o + LIST_HEADS + 4 * k,
                    ) == NULL_U32 by {
                        crate::memory::lemma_word_same(before, mem@, o + LIST_HEADS + 4 * k, 4);
                        assert(u32_at(before, o + LIST_HEADS + 4 * k) == NULL_U32);
                    }
                }
            }
        }
        i = i + 1;
    }
    proof {
        let t = l.tables(mem@);
        assert forall|w: int| 0 <= w < num_workers implies #[trigger] t.claimed[w] == 0 by {
            assert(blank_worker(mem@, l.worker_at(w)));
        }
        assert forall|w: int| 0 <= w < num_workers implies #[trigger] t.outstanding[w] == 0 by {
            assert(blank_worker(mem@, l.worker_at(w)));
        }
        assert forall|w: int| 0 <= w < num_workers implies #[trigger] t.rhead[w] == NULL_U64 by {
            assert(blank_worker(mem@, l.worker_at(w)));
        }
        assert forall|k: int| 0 <= k < 10 * num_workers implies #[trigger] t.heads[k]
            == NULL_U32 by {
            assert(blank_worker(mem@, l.worker_at(k / 10)));
            assert(u32_at(mem@, l.worker_at(k / 10) + LIST_HEADS + 4 * (k % 10)) == NULL_U32);
        }
    }
}

/// Links all slabs into the global free list, in order.
fn free_list_elements(mem: &mut [u8], layout: AllocatorLayout, Ghost(l): Ghost<CachedLayout>)
    requires
        l.wf(),
        l.fits(old(mem)@.len() as int),
        layout.num_slabs == l.num_slabs,
        layout.free_list_elements_offset == l.free_list_elements_offset,
    ensures
        ({
            let t = l.tables(final(mem)@);
            &&& generation_of(t.ghead) == 0
            &&& index_of(t.ghead) == 0
            &&& forall|i: int|
                0 <= i < l.num_slabs ==> #[trigger] t.gnext[i] == if i == l.num_slabs - 1 {
                    NULL_U32 as int
                } else {
                    i + 1
                }
            &&& forall|i: int| 0 <= i < l.num_slabs ==> #[trigger] t.wprev[i] == NULL_U32
            &&& forall|i: int| 0 <= i < l.num_slabs ==> #[trigger] t.wnext[i] == NULL_U32
        }),
        final(mem)@.len() == old(mem)@.len(),
        forall|i: int|
            0 <= i < old(mem)@.len() && !(GLOBAL_HEAD <= i < GLOBAL_HEAD + 8) && !(
            l.free_list_elements_offset <= i < l.free_list_elements_offset + l.num_slabs
                * NODE_SIZE) ==> #[trigger] final(mem)@[i] == old(mem)@[i],
{
    let ghost m0 = mem@;
    let num_slabs = layout.num_slabs;
    let ghost base = l.free_list_elements_offset as int;
    proof {
        l.lemma_bounds();
    }
    let mut slab_index: u32 = 0;
    while slab_index < num_slabs
        invariant
            slab_index <= num_slabs,
            num_slabs == layout.num_slabs == l.num_slabs,
            layout.free_list_elements_offset == l.free_list_elements_offset == base,
            l.wf(),
            l.fits(mem@.len() as int),
            l.slabs_offset <= l.end(),
            0 <= l.num_slabs * free_stack_bytes(l.slab_size as int),
            same_outside(m0, mem@, base, base + num_slabs * NODE_SIZE),
            forall|i: int|
                0 <= i < slab_index ==> #[trigger] u32_at(
                    mem@,
                    record(base, NODE_SIZE as int, i, GLOBAL_NEXT as int),
                ) == if i == num_slabs - 1 {
                    NULL_U32 as int
                } else {
                    i + 1
                },
            forall|i: int|
                0 <= i < slab_index ==> #[trigger] u32_at(
                    mem@,
                    record(base, NODE_SIZE as int, i, WORKER_LOCAL_PREV as int),
                ) == NULL_U32,
            forall|i: int|
                0 <= i < slab_index ==> #[trigger] u32_at(
                    mem@,
                    record(base, NODE_SIZE as int, i, WORKER_LOCAL_NEXT as int),
                ) == NULL_U32,
        decreases num_slabs - slab_index,
    {
        let global_next = if slab_index == num_slabs - 1 {
            NULL_U32
        } else {
            slab_index + 1
        };
        let ghost m1 = mem@;
        let at = record_offset(
            layout.free_list_elements_offset as usize,
            NODE_SIZE,
            slab_index as usize,
            0,
            Ghost(num_slabs as int),
        );
        proof {
            lemma_record_within(
                base,
                NODE_SIZE as int,
                num_slabs as int,
                slab_index as int,
                0,
                NODE_SIZE as int,
            );
        }
        store_u32(mem, at + GLOBAL_NEXT, global_next);
        let ghost m2 = mem@;
        store_u32(mem, at + WORKER_LOCAL_PREV, NULL_U32);
        let ghost m3 = mem@;
        store_u32(mem, at + WORKER_LOCAL_NEXT, NULL_U32);
        proof {
            crate::memory::lemma_word_same(m2, mem@, at as int, 4);
            crate::memory::lemma_word_same(m3, mem@, at + WORKER_LOCAL_PREV, 4);
            lemma_record_frame(
                m1,
                mem@,
                base,
                NODE_SIZE as int,
                num_slabs as int,
                slab_index as int,
                0,
                NODE_SIZE as int,
            );
            assert forall|i: int| 0 <= i < slab_index implies #[trigger] u32_at(
                mem@,
                record(base, NODE_SIZE as int, i, GLOBAL_NEXT as int),
            ) == i + 1 by {
                let o = record(base, NODE_SIZE as int, i, GLOBAL_NEXT as int);
                assert(u32_at(m1, o) == i + 1);
            }
            assert forall|i: int| 0 <= i < slab_index + 1 implies #[trigger] u32_at(
                mem@,
                record(base, NODE_SIZE as int, i, WORKER_LOCAL_PREV as int),
            ) == NULL_U32 by {
                let o = record(base, NODE_SIZE as int, i, WORKER_LOCAL_PREV as int);
                if i < slab_index {
                    assert(u32_at(m1, o) == NULL_U32);
                }
            }
            assert forall|i: int| 0 <= i < slab_index + 1 implies #[trigger] u32_at(
                mem@,
                record(base, NODE_SIZE as int, i, WORKER_LOCAL_NEXT as int),
            ) == NULL_U32 by {
                let o = record(base, NODE_SIZE as int, i, WORKER_LOCAL_NEXT as int);
                if i < slab_index {
                    assert(u32_at(m1, o) == NULL_U32);
                }
            }
        }
        slab_index = slab_index + 1;
    }
    // Now that the list has been initialized, set the global free list head.
    let ghost m3 = mem@;
    let head = pack_index(0, 0);
    store_u64(mem, GLOBAL_HEAD, head);
    proof {
        l.lemma_nodes_same(m3, mem@);
        let t = l.tables(m3);
        assert forall|i: int| 0 <= i < l.num_slabs implies #[trigger] t.gnext[i] == if i
            == l.num_slabs - 1 {
            NULL_U32 as int
        } else {
            i + 1
        } by {
            assert(t.gnext[i] == u32_at(
                m3,
                record(base, NODE_SIZE as int, i, GLOBAL_NEXT as int),
            ));
        }
        assert forall|i: int| 0 <= i < l.num_slabs implies #[trigger] t.wprev[i] == NULL_U32 by {
            assert(u32_at(
                m3,
                record(base, NODE_SIZE as int, i, WORKER_LOCAL_PREV as int),
            ) == NULL_U32);
        }
        assert forall|i: int| 0 <= i < l.num_slabs implies #[trigger] t.wnext[i] == NULL_U32 by {
            assert(u32_at(
                m3,
                record(base, NODE_SIZE as int, i, WORKER_LOCAL_NEXT as int),
            ) == NULL_U32);
        }
        crate::global_free_list::law_pack_round_trip(0, 0, head);
    }
}

/// Marks all slabs as owned by no worker, and empties their own remote free lists.
fn slab_shared_meta(mem: &mut [u8], layout: AllocatorLayout, Ghost(l): Ghost<CachedLayout>)
    requires
        l.wf(),
        l.fits(old(mem)@.len() as int),
        layout.num_slabs == l.num_slabs,
        layout.slab_shared_meta_offset == l.slab_shared_meta_offset,
    ensures
        ({
            let t = l.tables(final(mem)@);
            &&& forall|i: int| 0 <= i < l.num_slabs ==> #[trigger] t.assigned[i] == NULL_U32
            &&& forall|i: int| 0 <= i < l.num_slabs ==> #[trigger] t.class[i] == 0
            &&& forall|i: int| 0 <= i < l.num_slabs ==> #[trigger] t.slab_heads[i] == NULL_U16
        }),
        same_outside(
            old(mem)@,
            final(mem)@,
            l.slab_shared_meta_offset as int,
            l.slab_shared_meta_offset + l.num_slabs * SLAB_META_SIZE,
        ),
{
    let ghost m0 = mem@;
    let num_slabs = layout.num_slabs;
    let ghost base = l.slab_shared_meta_offset as int;
    proof {
        l.lemma_bounds();
    }
    let mut slab_index: u32 = 0;
    while slab_index < num_slabs
        invariant
            slab_index <= num_slabs,
            num_slabs == layout.num_slabs == l.num_slabs,
            layout.slab_shared_meta_offset == l.slab_shared_meta_offset == base,
            l.wf(),
            l.fits(mem@.len() as int),
            l.slabs_offset <= l.end(),
            0 <= l.num_slabs * free_stack_bytes(l.slab_size as int),
            same_outside(m0, mem@, base, base + num_slabs * SLAB_META_SIZE),
            forall|i: int|
                0 <= i < slab_index ==> #[trigger] u32_at(
                    mem@,
                    record(base, SLAB_META_SIZE as int, i, 0),
                ) == NULL_U32,
            forall|i: int|
                0 <= i < slab_index ==> #[trigger] u64_at(
                    mem@,
                    record(base, SLAB_META_SIZE as int, i, 8),
                ) == 0,
            forall|i: int|
                0 <= i < slab_index ==> #[trigger] u16_at(
                    mem@,
                    record(base, SLAB_META_SIZE as int, i, REMOTE_FREE_STACK_HEAD as int),
                ) == NULL_U16,
        decreases num_slabs - slab_index,
    {
        let ghost before = mem@;
        proof {
            lemma_record_within(
                base,
                SLAB_META_SIZE as int,
                num_slabs as int,
                slab_index as int,
                0,
                SLAB_META_SIZE as int,
            );
        }
        let at = record_offset(
            layout.slab_shared_meta_offset as usize,
            SLAB_META_SIZE,
            slab_index as usize,
            0,
            Ghost(num_slabs as int),
        );
        let slab_meta = SlabMeta::new(at);
        slab_meta.assign(mem, NULL_U32, 0);
        let ghost assigned = mem@;
        store_u16(mem, slab_meta.remote_free_stack_head, NULL_U16);
        proof {
            crate::memory::lemma_word_same(assigned, mem@, at as int, 4);
            crate::memory::lemma_word_same(assigned, mem@, at + 8, 8);
            lemma_record_frame(
                before,
                mem@,
                base,
                SLAB_META_SIZE as int,
                num_slabs as int,
                slab_index as int,
                0,
                SLAB_META_SIZE as int,
            );
            assert(at + 8 == record(base, SLAB_META_SIZE as int, slab_index as int, 8));
            assert forall|i: int| 0 <= i < slab_index implies #[trigger] u32_at(
                mem@,
                record(base, SLAB_META_SIZE as int, i, 0),
            ) == NULL_U32 by {
                assert(u32_at(before, record(base, SLAB_META_SIZE as int, i, 0)) == NULL_U32);
            }
            assert forall|i: int| 0 <= i < slab_index implies #[trigger] u64_at(
                mem@,
                record(base, SLAB_META_SIZE as int, i, 8),
            ) == 0 by {
                assert(u64_at(before, record(base, SLAB_META_SIZE as int, i, 8)) == 0);
            }
            let head = REMOTE_FREE_STACK_HEAD as int;
            assert(at + head == record(base, SLAB_META_SIZE as int, slab_index as int, head));
            assert forall|i: int| 0 <= i < slab_index implies #[trigger] u16_at(
                mem@,
                record(base, SLAB_META_SIZE as int, i, head),
            ) == NULL_U16 by {
                assert(u16_at(before, record(base, SLAB_META_SIZE as int, i, head)) == NULL_U16);
            }
        }
        slab_index = slab_index + 1;
    }
    proof {
        let t = l.tables(mem@);
        assert forall|i: int| 0 <= i < l.num_slabs implies #[trigger] t.assigned[i]
            == NULL_U32 by {
            assert(u32_at(mem@, record(base, SLAB_META_SIZE as int, i, 0)) == NULL_U32);
        }
        assert forall|i: int| 0 <= i < l.num_slabs implies #[trigger] t.class[i] == 0 by {
            assert(u64_at(mem@, record(base, SLAB_META_SIZE as int, i, 8)) == 0);
        }
        assert forall|i: int| 0 <= i < l.num_slabs implies #[trigger] t.slab_heads[i]
            == NULL_U16 by {
            assert(u16_at(
                mem@,
                record(base, SLAB_META_SIZE as int, i, REMOTE_FREE_STACK_HEAD as int),
            ) == NULL_U16);
        }
    }
}

} // verus!
