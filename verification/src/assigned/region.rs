//! The region as tables, and the state that it holds.
use crate::assigned::free_stack::FreeStack;
use crate::assigned::remote_free_stack::{slot_thread, RemoteFreeStack};
use crate::assigned::worker_local_list::WorkerLocalList;
use crate::global_free_list::{generation_of, index_of};
use crate::index::NULL_U32;
use crate::links::{dlinked, linked};
use crate::memory::{agree, same_outside, u32_at, u64_at, word};
use crate::node_table::NodeTable;
use crate::records::{column32, column8, lemma_record_apart, lemma_record_within, record};
use crate::align::is_pow2;
use crate::region::CachedLayout;
use crate::size_classes::class_bytes;
use vstd::arithmetic::mul::*;
use vstd::prelude::*;

verus! {

/// The offset of the head of the global free stack.
pub const GLOBAL_FREE_STACK: usize = 64;

/// The offset of the states of the workers, and the size of each.
pub const WORKER_STATES: usize = 128;

pub const WORKER_STATE_SIZE: usize = 40;

/// Where the words of a slab's metadata lie within its record.
pub const ASSIGNED: usize = 0;

pub const PREV: usize = 4;

pub const NEXT: usize = 8;

pub const CLASS: usize = 12;

pub const REMOTE: usize = 64;

pub const STACK: usize = 128;

/// The size of a slab's metadata without the slots on its free stack, and its alignment.
pub const SLAB_META_SIZE: usize = 192;

pub const SLAB_META_ALIGN: usize = 64;

/// Where things lie in the region.
#[derive(Clone, Copy, Debug, PartialEq, Eq, Structural)]
pub struct RawLayout {
    pub num_workers: u32,
    pub num_slabs: u32,
    pub slab_meta_size: u32,
    pub slab_meta_offset: u32,
    pub slab_size: u32,
    pub slab_offset: u32,
}

/// What the region holds, as plain values.
pub struct RawTables {
    /// The head of the global free stack, with its generation.
    pub ghead: u64,
    /// The links of the slabs.
    pub prev: Seq<u32>,
    pub next: Seq<u32>,
    /// The heads of the worker local lists: ten for each worker.
    pub heads: Seq<u32>,
    /// The worker and size class of each slab.
    pub assigned: Seq<u32>,
    pub class: Seq<u8>,
    /// The heads of the remote free stacks.
    pub rhead: Seq<u32>,
    /// The free slots of each slab.
    pub stack: Seq<Seq<u16>>,
}

impl RawTables {
    /// Another region says the same of a slab.
    pub open spec fn same_row(self, other: RawTables, i: int) -> bool {
        &&& other.prev[i] == self.prev[i]
        &&& other.next[i] == self.next[i]
        &&& other.assigned[i] == self.assigned[i]
        &&& other.class[i] == self.class[i]
        &&& other.rhead[i] == self.rhead[i]
        &&& other.stack[i] == self.stack[i]
    }
}

/// The state of the allocator that all workers share.
pub struct AssignedState {
    /// How often slabs entered and left the global free stack.
    pub generation: u32,
    /// The global free stack, then the partial and the full list of each worker and class.
    pub lists: Seq<Seq<u32>>,
    /// The worker and size class of each slab.
    pub assigned: Seq<u32>,
    pub class: Seq<u64>,
    /// The free slots of each slab, the next to be handed out last.
    pub stack: Seq<Seq<u16>>,
    /// The slots of each slab that other workers have freed.
    pub remote: Seq<Seq<int>>,
}

impl RawLayout {
    /// One past the last byte of the slabs.
    pub open spec fn end(self) -> int {
        self.slab_offset + self.num_slabs * self.slab_size
    }

    /// The slabs, as a layout that says how they are divided into slots.
    pub open spec fn slabs(self) -> CachedLayout {
        CachedLayout {
            num_slabs: self.num_slabs,
            num_workers: self.num_workers,
            slab_size: self.slab_size,
            free_list_elements_offset: 0,
            slab_shared_meta_offset: 0,
            slab_free_stacks_offset: 0,
            slabs_offset: self.slab_offset,
        }
    }

    /// The metadata of the slabs comes after the states of the workers.
    pub open spec fn metas_apart(self) -> bool {
        &&& WORKER_STATES + self.num_workers * WORKER_STATE_SIZE <= self.slab_meta_offset
        &&& SLAB_META_SIZE + 2 * (self.slab_size / 256) <= self.slab_meta_size
    }

    /// The parts come one after another, without overlap.
    pub open spec fn wf(self) -> bool {
        &&& is_pow2(self.slab_size as int)
        &&& self.slab_size > 0
        &&& self.metas_apart()
        &&& self.slab_meta_offset + self.num_slabs * self.slab_meta_size <= self.slab_offset
        &&& self.end() <= u32::MAX
    }

    /// The region has room for everything.
    pub open spec fn fits(self, size: int) -> bool {
        self.end() <= size <= usize::MAX
    }

    pub open spec fn meta_at(self, slab: int) -> int {
        record(self.slab_meta_offset as int, self.slab_meta_size as int, slab, 0)
    }

    pub open spec fn nodes(self) -> NodeTable {
        NodeTable {
            base: self.slab_meta_offset as usize,
            stride: self.slab_meta_size as usize,
            prev: PREV,
            next: NEXT,
            len: self.num_slabs,
        }
    }

    /// The offset of the head word of a worker local list: `k` counts partial and full lists
    /// of all classes, in turn.
    pub open spec fn head_at(self, worker: int, k: int) -> int {
        record(
            WORKER_STATES as int,
            WORKER_STATE_SIZE as int,
            worker,
            4 * (k / 2 + 5 * (k % 2)),
        )
    }

    pub open spec fn local_list(self, worker: int, k: int) -> WorkerLocalList {
        WorkerLocalList { head: self.head_at(worker, k) as usize, list: self.nodes() }
    }

    pub open spec fn free_stack(self, slab: int) -> FreeStack {
        FreeStack { top: (self.meta_at(slab) + STACK) as usize }
    }

    pub open spec fn remote_stack(self, slab: int) -> RemoteFreeStack {
        RemoteFreeStack { head: (self.meta_at(slab) + REMOTE) as usize }
    }

    /// The offset of a slab.
    pub open spec fn slab_at(self, slab: int) -> int {
        self.slab_offset + slab * self.slab_size
    }

    /// What the region holds.
    pub open spec fn tables(self, mem: Seq<u8>) -> RawTables {
        let base = self.slab_meta_offset as int;
        let stride = self.slab_meta_size as int;
        let n = self.num_slabs as nat;
        RawTables {
            ghead: u64_at(mem, GLOBAL_FREE_STACK as int),
            prev: column32(mem, base, stride, PREV as int, n),
            next: column32(mem, base, stride, NEXT as int, n),
            heads: Seq::new(
                10 * self.num_workers as nat,
                |h: int| u32_at(mem, self.head_at(h / 10, h % 10)),
            ),
            assigned: column32(mem, base, stride, ASSIGNED as int, n),
            class: column8(mem, base, stride, CLASS as int, n),
            rhead: column32(mem, base, stride, REMOTE as int, n),
            stack: Seq::new(n, |i: int| self.free_stack(i).contents(mem)),
        }
    }

    /// Heads and links form the given lists.
    pub open spec fn linked_lists(self, t: RawTables, lists: Seq<Seq<u32>>) -> bool {
        &&& lists.len() == 1 + 10 * self.num_workers
        &&& linked(t.next, index_of(t.ghead), lists[0])
        &&& forall|k: int|
            1 <= k < lists.len() ==> dlinked(t.prev, t.next, t.heads[k - 1], #[trigger] lists[k])
    }

    /// The remote free stack of an owned slab is threaded through its slots.
    pub open spec fn threaded(self, mem: Seq<u8>, s: AssignedState, slab: int) -> bool {
        slot_thread(self.slab_at(slab), class_bytes(s.class[slab] as int)).threads(
            mem,
            self.tables(mem).rhead[slab] as int,
            s.remote[slab],
        )
    }

    /// The region holds the given state.
    #[verifier::opaque]
    pub open spec fn holds(self, mem: Seq<u8>, s: AssignedState) -> bool {
        let t = self.tables(mem);
        &&& self.wf()
        &&& self.fits(mem.len() as int)
        &&& self.linked_lists(t, s.lists)
        &&& s.generation == generation_of(t.ghead)
        &&& s.assigned == t.assigned
        &&& s.class == t.class.map_values(|c: u8| c as u64)
        &&& s.stack == t.stack
        &&& s.remote.len() == self.num_slabs
        &&& forall|i: int|
            0 <= i < self.num_slabs && s.assigned[i] != NULL_U32 ==> #[trigger] self.threaded(mem, s, i)
        &&& forall|i: int|
            0 <= i < self.num_slabs && s.assigned[i] == NULL_U32 ==> (#[trigger] s.remote[i]).len()
                == 0
    }

    /// The state that the region holds.
    pub open spec fn state(self, mem: Seq<u8>) -> AssignedState {
        choose|s: AssignedState| self.holds(mem, s)
    }

    /// The region holds at most one state.
    pub proof fn lemma_state(self, mem: Seq<u8>, s: AssignedState)
        requires
            self.holds(mem, s),
        ensures
            self.state(mem) == s,
            self.holds(mem, self.state(mem)),
    {
        reveal(RawLayout::holds);
        let t = self.tables(mem);
        let u = self.state(mem);
        assert forall|k: int| 0 <= k < s.lists.len() implies u.lists[k] == s.lists[k] by {
            let _ = s.lists[k];
            if k == 0 {
                crate::links::lemma_linked_unique(
                    t.next,
                    index_of(t.ghead),
                    u.lists[0],
                    s.lists[0],
                );
            } else {
                let _ = u.lists[k];
                crate::links::lemma_linked_unique(t.next, t.heads[k - 1], u.lists[k], s.lists[k]);
            }
        }
        assert(u.lists =~= s.lists);
        assert forall|i: int| 0 <= i < self.num_slabs implies u.remote[i] == s.remote[i] by {
            if s.assigned[i] == NULL_U32 {
                assert(u.remote[i] =~= s.remote[i]);
            } else {
                assert(self.threaded(mem, s, i));
                assert(self.threaded(mem, u, i));
                slot_thread(self.slab_at(i), class_bytes(s.class[i] as int)).lemma_unique(
                    mem,
                    t.rhead[i] as int,
                    u.remote[i],
                    s.remote[i],
                );
            }
        }
        assert(u.remote =~= s.remote);
    }

    /// Bounds of the parts of the region, as plain inequalities.
    pub proof fn lemma_bounds(self)
        requires
            self.wf(),
        ensures
            0 <= self.num_slabs * self.slab_size,
            0 <= self.num_slabs * self.slab_meta_size,
            self.slab_meta_offset <= self.slab_offset <= self.end(),
    {
        lemma_mul_nonnegative(self.num_slabs as int, self.slab_size as int);
        lemma_mul_nonnegative(self.num_slabs as int, self.slab_meta_size as int);
    }

    /// Where the metadata of a slab lies.
    pub proof fn lemma_meta_within(self, slab: int)
        requires
            0 <= slab < self.num_slabs,
        ensures
            self.slab_meta_offset <= self.meta_at(slab),
            self.meta_at(slab) + self.slab_meta_size <= self.slab_meta_offset + self.num_slabs
                * self.slab_meta_size,
    {
        lemma_record_within(
            self.slab_meta_offset as int,
            self.slab_meta_size as int,
            self.num_slabs as int,
            slab,
            0,
            self.slab_meta_size as int,
        );
    }

    /// No free stack is deeper than the room it has.
    pub open spec fn stacks_fit(self, stack: Seq<Seq<u16>>) -> bool {
        forall|i: int|
            0 <= i < self.num_slabs ==> (#[trigger] stack[i]).len() <= self.slab_size / 256
    }

    /// The words of the records of all slabs but one are as before.
    proof fn lemma_rows_same(self, a: Seq<u8>, b: Seq<u8>, slab: int)
        requires
            self.metas_apart(),
            self.slab_meta_offset + self.num_slabs * self.slab_meta_size <= a.len() <= usize::MAX,
            a.len() == b.len(),
            forall|i: int|
                0 <= i < self.num_slabs && i != slab ==> agree(
                    a,
                    b,
                    #[trigger] self.meta_at(i),
                    self.meta_at(i) + self.slab_meta_size,
                ),
            forall|i: int|
                0 <= i < self.num_slabs && i != slab ==> (#[trigger] self.tables(a).stack[i]).len()
                    <= self.slab_size / 256,
        ensures
            forall|i: int|
                0 <= i < self.num_slabs && i != slab ==> #[trigger] self.tables(a).same_row(
                    self.tables(b),
                    i,
                ),
    {
        assert forall|i: int|
            0 <= i < self.num_slabs && i != slab implies #[trigger] self.tables(a).same_row(
            self.tables(b),
            i,
        ) by {
            self.lemma_meta_within(i);
            let at = self.meta_at(i);
            assert(agree(a, b, at, at + self.slab_meta_size));
            crate::memory::lemma_word_same(a, b, at + ASSIGNED, 4);
            crate::memory::lemma_word_same(a, b, at + PREV, 4);
            crate::memory::lemma_word_same(a, b, at + NEXT, 4);
            crate::memory::lemma_word_same(a, b, at + CLASS, 1);
            crate::memory::lemma_word_same(a, b, at + REMOTE, 4);
            assert(self.tables(a).stack[i].len() <= self.slab_size / 256);
            self.lemma_stack_same(a, b, i);
        }
    }

    /// The free stack of a slab depends on its own bytes only.
    pub proof fn lemma_stack_same(self, a: Seq<u8>, b: Seq<u8>, slab: int)
        requires
            self.metas_apart(),
            self.slab_meta_offset + self.num_slabs * self.slab_meta_size <= a.len() <= usize::MAX,
            a.len() == b.len(),
            0 <= slab < self.num_slabs,
            self.free_stack(slab).contents(a).len() <= self.slab_size / 256,
            agree(a, b, self.meta_at(slab) + STACK, self.meta_at(slab) + self.slab_meta_size),
        ensures
            self.free_stack(slab).contents(b) == self.free_stack(slab).contents(a),
    {
        self.lemma_meta_within(slab);
        let fs = self.free_stack(slab);
        crate::memory::lemma_word_same(a, b, fs.top as int, 2);
        assert forall|j: int| 0 <= j < fs.contents(a).len() implies fs.contents(b)[j]
            == fs.contents(a)[j] by {
            crate::memory::lemma_word_same(a, b, fs.top + 64 + 2 * j, 2);
        }
        assert(fs.contents(b) =~= fs.contents(a));
    }

    /// What a change to the record of one slab does to the tables.
    pub proof fn lemma_row_op(self, a: Seq<u8>, b: Seq<u8>, slab: int)
        requires
            self.metas_apart(),
            self.slab_meta_offset + self.num_slabs * self.slab_meta_size <= a.len() <= usize::MAX,
            0 <= slab < self.num_slabs,
            same_outside(a, b, self.meta_at(slab), self.meta_at(slab) + self.slab_meta_size),
            forall|i: int|
                0 <= i < self.num_slabs && i != slab ==> (#[trigger] self.tables(a).stack[i]).len()
                    <= self.slab_size / 256,
        ensures
            ({
                let ta = self.tables(a);
                let tb = self.tables(b);
                tb == (RawTables {
                    prev: ta.prev.update(slab, tb.prev[slab]),
                    next: ta.next.update(slab, tb.next[slab]),
                    assigned: ta.assigned.update(slab, tb.assigned[slab]),
                    class: ta.class.update(slab, tb.class[slab]),
                    rhead: ta.rhead.update(slab, tb.rhead[slab]),
                    stack: ta.stack.update(slab, tb.stack[slab]),
                    ..ta
                })
            }),
    {
        let ta = self.tables(a);
        let tb = self.tables(b);
        self.lemma_meta_within(slab);
        assert forall|i: int| 0 <= i < self.num_slabs && i != slab implies agree(
            a,
            b,
            #[trigger] self.meta_at(i),
            self.meta_at(i) + self.slab_meta_size,
        ) by {
            self.lemma_meta_within(i);
            if i < slab {
                lemma_record_apart(
                    self.slab_meta_offset as int,
                    self.slab_meta_size as int,
                    i,
                    slab,
                );
            } else {
                lemma_record_apart(
                    self.slab_meta_offset as int,
                    self.slab_meta_size as int,
                    slab,
                    i,
                );
            }
        }
        self.lemma_rows_same(a, b, slab);
        crate::memory::lemma_word_same(a, b, GLOBAL_FREE_STACK as int, 8);
        self.lemma_heads_same(a, b);
        assert forall|i: int| 0 <= i < self.num_slabs && i != slab implies tb.prev[i]
            == ta.prev[i] && tb.next[i] == ta.next[i] && tb.assigned[i] == ta.assigned[i]
            && tb.class[i] == ta.class[i] && tb.rhead[i] == ta.rhead[i] && tb.stack[i]
            == ta.stack[i] by {
            assert(ta.same_row(tb, i));
        }
        assert(tb.prev =~= ta.prev.update(slab, tb.prev[slab]));
        assert(tb.next =~= ta.next.update(slab, tb.next[slab]));
        assert(tb.assigned =~= ta.assigned.update(slab, tb.assigned[slab]));
        assert(tb.class =~= ta.class.update(slab, tb.class[slab]));
        assert(tb.rhead =~= ta.rhead.update(slab, tb.rhead[slab]));
        assert(tb.stack =~= ta.stack.update(slab, tb.stack[slab]));
    }

    /// The heads of the lists depend on the states of the workers only.
    proof fn lemma_heads_same(self, a: Seq<u8>, b: Seq<u8>)
        requires
            self.metas_apart(),
            agree(
                a,
                b,
                WORKER_STATES as int,
                WORKER_STATES + self.num_workers * WORKER_STATE_SIZE,
            ),
        ensures
            self.tables(b).heads == self.tables(a).heads,
    {
        assert forall|h: int| 0 <= h < 10 * self.num_workers implies self.tables(b).heads[h]
            == self.tables(a).heads[h] by {
            let at = self.head_at(h / 10, h % 10);
            crate::memory::lemma_word_same(a, b, at, 4);
        }
        assert(self.tables(b).heads =~= self.tables(a).heads);
    }

    /// What a change to the head of the global free stack does to the tables.
    pub proof fn lemma_ghead_op(self, a: Seq<u8>, b: Seq<u8>)
        requires
            self.metas_apart(),
            self.slab_meta_offset + self.num_slabs * self.slab_meta_size <= a.len() <= usize::MAX,
            self.stacks_fit(self.tables(a).stack),
            same_outside(a, b, GLOBAL_FREE_STACK as int, GLOBAL_FREE_STACK + 8),
        ensures
            self.tables(b) == (RawTables {
                ghead: u64_at(b, GLOBAL_FREE_STACK as int),
                ..self.tables(a)
            }),
    {
        let ta = self.tables(a);
        let tb = self.tables(b);
        self.lemma_all_rows_same(a, b);
        self.lemma_heads_same(a, b);
    }

    /// The words of the records of all slabs are as before.
    pub proof fn lemma_all_rows_same(self, a: Seq<u8>, b: Seq<u8>)
        requires
            self.metas_apart(),
            self.slab_meta_offset + self.num_slabs * self.slab_meta_size <= a.len() <= usize::MAX,
            a.len() == b.len(),
            self.stacks_fit(self.tables(a).stack),
            agree(
                a,
                b,
                self.slab_meta_offset as int,
                self.slab_meta_offset + self.num_slabs * self.slab_meta_size,
            ),
        ensures
            self.tables(b) == (RawTables {
                ghead: self.tables(b).ghead,
                heads: self.tables(b).heads,
                ..self.tables(a)
            }),
    {
        let ta = self.tables(a);
        let tb = self.tables(b);
        assert forall|i: int| 0 <= i < self.num_slabs && i != -1 implies agree(
            a,
            b,
            #[trigger] self.meta_at(i),
            self.meta_at(i) + self.slab_meta_size,
        ) by {
            self.lemma_meta_within(i);
        }
        self.lemma_rows_same(a, b, -1);
        assert forall|i: int| 0 <= i < self.num_slabs implies tb.prev[i] == ta.prev[i]
            && tb.next[i] == ta.next[i] && tb.assigned[i] == ta.assigned[i] && tb.class[i]
            == ta.class[i] && tb.rhead[i] == ta.rhead[i] && tb.stack[i] == ta.stack[i] by {
            assert(ta.same_row(tb, i));
        }
        assert(tb.prev =~= ta.prev);
        assert(tb.next =~= ta.next);
        assert(tb.assigned =~= ta.assigned);
        assert(tb.class =~= ta.class);
        assert(tb.rhead =~= ta.rhead);
        assert(tb.stack =~= ta.stack);
    }

    /// What a change to bytes of the slabs does to the tables: nothing.
    pub proof fn lemma_data_op(self, a: Seq<u8>, b: Seq<u8>, lo: int, hi: int)
        requires
            self.wf(),
            self.fits(a.len() as int),
            self.stacks_fit(self.tables(a).stack),
            self.slab_offset <= lo,
            same_outside(a, b, lo, hi),
        ensures
            self.tables(b) == self.tables(a),
    {
        self.lemma_bounds();
        crate::memory::lemma_word_same(a, b, GLOBAL_FREE_STACK as int, 8);
        self.lemma_all_rows_same(a, b);
        self.lemma_heads_same(a, b);
    }

    /// What a push or remove on a worker local list does to the tables.
    pub proof fn lemma_local_op(self, a: Seq<u8>, b: Seq<u8>, w: int, k: int, slabs: Set<int>)
        requires
            self.wf(),
            self.fits(a.len() as int),
            self.stacks_fit(self.tables(a).stack),
            0 <= w < self.num_workers,
            0 <= k < 10,
            self.local_list(w, k).only_links(a, b, slabs),
        ensures
            self.tables(b) == (RawTables {
                prev: self.tables(b).prev,
                next: self.tables(b).next,
                heads: self.tables(a).heads.update(10 * w + k, u32_at(b, self.head_at(w, k))),
                ..self.tables(a)
            }),
            forall|i: int|
                0 <= i < self.num_slabs && !slabs.contains(i) ==> #[trigger] self.tables(b).prev[i]
                    == self.tables(a).prev[i],
            forall|i: int|
                0 <= i < self.num_slabs && !slabs.contains(i) ==> #[trigger] self.tables(b).next[i]
                    == self.tables(a).next[i],
    {
        self.lemma_bounds();
        let ll = self.local_list(w, k);
        let ta = self.tables(a);
        let tb = self.tables(b);
        let base = self.slab_meta_offset as int;
        let stride = self.slab_meta_size as int;
        assert(ll.head == self.head_at(w, k));
        crate::memory::lemma_word_same(a, b, GLOBAL_FREE_STACK as int, 8);
        assert(ll.list.prevs(a) =~= ta.prev);
        assert(ll.list.prevs(b) =~= tb.prev);
        assert(ll.list.nexts(a) =~= ta.next);
        assert(ll.list.nexts(b) =~= tb.next);
        assert(tb.assigned =~= ta.assigned);
        assert(tb.class =~= ta.class);
        assert(tb.rhead =~= ta.rhead);
        assert forall|i: int| 0 <= i < self.num_slabs implies tb.stack[i] == ta.stack[i] by {
            let fs = self.free_stack(i);
            self.lemma_meta_within(i);
            assert(fs.top == record(base, stride, i, STACK as int));
            assert(word(b, record(base, stride, i, STACK as int), 2) == word(
                a,
                record(base, stride, i, STACK as int),
                2,
            ));
            assert(ta.stack[i].len() <= self.slab_size / 256);
            assert forall|j: int| 0 <= j < fs.contents(a).len() implies fs.contents(b)[j]
                == fs.contents(a)[j] by {
                let g = STACK + 64 + 2 * j;
                assert(fs.top + 64 + 2 * j == record(base, stride, i, g));
                assert(word(b, record(base, stride, i, g), 2) == word(
                    a,
                    record(base, stride, i, g),
                    2,
                ));
            }
            assert(fs.contents(b) =~= fs.contents(a));
        }
        assert(tb.stack =~= ta.stack);
        assert forall|h: int| 0 <= h < 10 * self.num_workers && h != 10 * w + k implies tb.heads[h]
            == ta.heads[h] by {
            let at = self.head_at(h / 10, h % 10);
            crate::memory::lemma_word_same(a, b, at, 4);
        }
        assert(tb.heads =~= ta.heads.update(10 * w + k, u32_at(b, self.head_at(w, k))));
    }
}

/// A region is laid out soundly if the size of its slabs is a power of two and its parts come one
/// after another, within 32 bits and within the region: 40 bytes for each worker after the first
/// 128, then for each slab 192 bytes and 2 for each 256 of the slab at least, and then the slabs.
pub proof fn law_laid_out(l: RawLayout, size: int)
    requires
        size <= usize::MAX,
    ensures
        l.wf() && l.fits(size) <==> {
            &&& is_pow2(l.slab_size as int)
            &&& 128 + 40 * l.num_workers <= l.slab_meta_offset
            &&& 192 + 2 * (l.slab_size as int / 256) <= l.slab_meta_size
            &&& l.slab_meta_offset + l.num_slabs * l.slab_meta_size <= l.slab_offset
            &&& l.slab_offset + l.num_slabs * l.slab_size <= size
            &&& l.slab_offset + l.num_slabs * l.slab_size <= u32::MAX
        },
{
    if is_pow2(l.slab_size as int) {
        let k = choose|k: nat| l.slab_size as int == #[trigger] vstd::arithmetic::power2::pow2(k);
        vstd::arithmetic::power2::lemma_pow2_pos(k);
    }
}

/// Where the words about workers and slabs lie.
pub proof fn law_words(l: RawLayout, mem: Seq<u8>, w: int, class: int, slab: int)
    requires
        l.wf(),
        l.fits(mem.len() as int),
        0 <= w < l.num_workers,
        0 <= class < 5,
        0 <= slab < l.num_slabs,
    ensures
        ({
            let t = l.tables(mem);
            let meta = l.slab_meta_offset + slab * l.slab_meta_size;
            let state = 128 + 40 * w;
            &&& t.ghead == u64_at(mem, 64)
            &&& t.heads[10 * w + 2 * class] == u32_at(mem, state + 4 * class)
            &&& t.heads[10 * w + 2 * class + 1] == u32_at(mem, state + 20 + 4 * class)
            &&& t.assigned[slab] == u32_at(mem, meta)
            &&& t.prev[slab] == u32_at(mem, meta + 4)
            &&& t.next[slab] == u32_at(mem, meta + 8)
            &&& t.class[slab] == crate::memory::u8_at(mem, meta + 12)
            &&& t.rhead[slab] == u32_at(mem, meta + 64)
            &&& t.stack[slab].len() == crate::memory::u16_at(mem, meta + 128)
            &&& forall|j: int|
                0 <= j < t.stack[slab].len() ==> #[trigger] t.stack[slab][j]
                    == crate::memory::u16_at(mem, meta + 192 + 2 * j)
        }),
{
    l.lemma_bounds();
    l.lemma_meta_within(slab);
    let h = 10 * w + 2 * class;
    assert(h / 10 == w && h % 10 == 2 * class);
    assert((h + 1) / 10 == w && (h + 1) % 10 == 2 * class + 1);
}

} // verus!
