//! Creating a region and joining one.
use crate::align::{
    is_pow2, is_power_of_two, lemma_round_up, round_to_next_alignment_of, round_up,
};
use crate::assigned::error::Error;
use crate::assigned::global_free_stack::return_the_slab;
use crate::assigned::header::{Header, MAGIC, VERSION};
use crate::assigned::raw_allocator::RawAllocator;
use crate::assigned::region::{
    AssignedState, RawLayout, RawTables, GLOBAL_FREE_STACK, SLAB_META_ALIGN, SLAB_META_SIZE, STACK,
    WORKER_STATES, WORKER_STATE_SIZE,
};
use crate::cache_aligned::CacheAligned;
use crate::global_free_list::{generation_of, index_of, next_generation, pack_index};
use crate::index::NULL_U32;
use crate::links::linked;
use crate::memory::{agree, same_outside, store_u32, u32_at, word};
use crate::size_classes::MIN_SIZE;
use vstd::arithmetic::div_mod::*;
use vstd::arithmetic::mul::*;
use vstd::arithmetic::power2::*;
use vstd::prelude::*;

verus! {

/// Where the metadata of the slabs starts.
pub open spec fn metas_at(num_workers: int) -> int {
    round_up(WORKER_STATES + num_workers * WORKER_STATE_SIZE, SLAB_META_ALIGN as int)
}

/// The size of the metadata of a slab.
pub open spec fn meta_bytes(slab_size: int) -> int {
    round_up(SLAB_META_SIZE + slab_size / MIN_SIZE as int * 2, SLAB_META_ALIGN as int)
}

/// Where the slabs start: at a multiple of their size, after the header, the workers and the
/// metadata of all `num_slabs` slabs.
pub open spec fn slabs_at(num_workers: int, slab_size: int, num_slabs: int) -> int {
    round_up(metas_at(num_workers) + num_slabs * meta_bytes(slab_size), slab_size)
}

/// How many slabs a region of `size` bytes has: of its whole slabs, as many as there are once
/// each of them also pays for its metadata.
pub open spec fn most_slabs(num_workers: int, slab_size: int, size: int) -> int {
    (size / slab_size * slab_size - metas_at(num_workers)) / (meta_bytes(slab_size) + slab_size)
}

/// The layout of a region of `size` bytes. Sizes and offsets are 32-bit words.
pub open spec fn raw_layout(num_workers: u32, slab_size: u32, size: int) -> RawLayout {
    let num_slabs = most_slabs(num_workers as int, slab_size as int, size as u32 as int);
    RawLayout {
        num_workers,
        num_slabs: num_slabs as u32,
        slab_meta_size: meta_bytes(slab_size as int) as u32,
        slab_meta_offset: metas_at(num_workers as int) as u32,
        slab_size,
        slab_offset: slabs_at(num_workers as int, slab_size as int, num_slabs) as u32,
    }
}

/// The region has room for the header and the workers.
pub open spec fn has_room(num_workers: u32, slab_size: u32, size: int) -> bool {
    slabs_at(num_workers as int, slab_size as int, 0) <= size as u32
}

/// Whether some slabs and their metadata fit, as an inequality without rounding.
proof fn lemma_slabs_fit(num_workers: int, slab_size: int, size: int, k: int)
    requires
        0 <= num_workers,
        0 < slab_size,
        0 <= size,
        0 <= k,
    ensures
        slabs_at(num_workers, slab_size, k) + k * slab_size <= size <==> metas_at(num_workers) + k
            * (meta_bytes(slab_size) + slab_size) <= size / slab_size * slab_size,
{
    let x = metas_at(num_workers) + k * meta_bytes(slab_size);
    let q = (x + slab_size - 1) / slab_size;
    let t = size / slab_size;
    let end = slabs_at(num_workers, slab_size, k) + k * slab_size;
    lemma_round_up(x, slab_size);
    lemma_mul_is_distributive_add_other_way(slab_size, q, k);
    assert(end == (q + k) * slab_size);
    lemma_mul_is_distributive_add(k, meta_bytes(slab_size), slab_size);
    lemma_fundamental_div_mod(size, slab_size);
    lemma_mul_is_commutative(slab_size, t);
    lemma_mul_is_distributive_sub_other_way(slab_size, t, k);
    if end <= size {
        lemma_div_is_ordered(end, size, slab_size);
        lemma_div_multiples_vanish(q + k, slab_size);
        lemma_mul_is_commutative(q + k, slab_size);
        lemma_mul_inequality(q, t - k, slab_size);
    }
    if x <= (t - k) * slab_size {
        crate::header::layout::lemma_round_up_le(x, t - k, slab_size);
    }
}

/// The parts of a region come one after another and fit in it, and there is room for no more
/// slabs.
pub proof fn law_most_slabs(num_workers: int, slab_size: int, size: int)
    requires
        0 <= num_workers,
        0 < slab_size,
        0 <= size,
        slabs_at(num_workers, slab_size, 0) <= size,
    ensures
        ({
            let n = most_slabs(num_workers, slab_size, size);
            &&& 0 <= n
            &&& metas_at(num_workers) + n * meta_bytes(slab_size) <= slabs_at(
                num_workers,
                slab_size,
                n,
            )
            &&& slabs_at(num_workers, slab_size, n) % slab_size == 0
            &&& slabs_at(num_workers, slab_size, n) + n * slab_size <= size
            &&& forall|k: int|
                n < k ==> #[trigger] slabs_at(num_workers, slab_size, k) + k * slab_size > size
        }),
{
    let n = most_slabs(num_workers, slab_size, size);
    let each = meta_bytes(slab_size) + slab_size;
    let whole = size / slab_size * slab_size;
    let room = whole - metas_at(num_workers);
    lemma_round_up(SLAB_META_SIZE + slab_size / MIN_SIZE as int * 2, SLAB_META_ALIGN as int);
    lemma_div_pos_is_pos(slab_size, MIN_SIZE as int);
    lemma_mul_basics(meta_bytes(slab_size));
    lemma_mul_basics(slab_size);
    lemma_mul_basics(each);
    lemma_slabs_fit(num_workers, slab_size, size, 0);
    lemma_fundamental_div_mod(room, each);
    lemma_mod_bound(room, each);
    lemma_div_pos_is_pos(room, each);
    lemma_mul_is_commutative(each, n);
    lemma_slabs_fit(num_workers, slab_size, size, n);
    lemma_round_up(metas_at(num_workers) + n * meta_bytes(slab_size), slab_size);
    assert forall|k: int| n < k implies #[trigger] slabs_at(num_workers, slab_size, k) + k
        * slab_size > size by {
        lemma_slabs_fit(num_workers, slab_size, size, k);
        lemma_mul_inequality(n + 1, k, each);
        lemma_mul_is_distributive_add_other_way(each, n, 1);
    }
}

/// What the layout of a region with room comes to.
proof fn lemma_layout(num_workers: u32, slab_size: u32, size: int)
    requires
        is_pow2(slab_size as int),
        0 <= size <= usize::MAX,
        has_room(num_workers, slab_size, size),
    ensures
        ({
            let l = raw_layout(num_workers, slab_size, size);
            let n = most_slabs(num_workers as int, slab_size as int, size as u32 as int);
            &&& l.wf()
            &&& l.fits(size)
            &&& slab_size > 0
            &&& size as u32 <= size
            &&& l.num_slabs == n
            &&& l.slab_meta_size == meta_bytes(slab_size as int)
            &&& l.slab_meta_offset == metas_at(num_workers as int)
            &&& l.slab_offset == slabs_at(num_workers as int, slab_size as int, n)
            &&& l.end() <= size as u32
            &&& metas_at(num_workers as int) <= size as u32 / slab_size * slab_size
        }),
{
    let ss = slab_size as int;
    let nw = num_workers as int;
    let k = choose|k: nat| ss == #[trigger] pow2(k);
    lemma_pow2_pos(k);
    if size <= u32::MAX {
        assert(size as u32 == size);
    }
    let size32 = size as u32 as int;
    law_most_slabs(nw, ss, size32);
    let n = most_slabs(nw, ss, size32);
    lemma_slabs_fit(nw, ss, size32, 0);
    lemma_mul_basics(meta_bytes(ss));
    lemma_mul_basics(ss);
    lemma_mul_basics(meta_bytes(ss) + ss);
    lemma_round_up(WORKER_STATES + nw * WORKER_STATE_SIZE, SLAB_META_ALIGN as int);
    lemma_round_up(SLAB_META_SIZE + ss / MIN_SIZE as int * 2, SLAB_META_ALIGN as int);
    lemma_mul_nonnegative(n, meta_bytes(ss));
    lemma_mul_inequality(1, ss, n);
    lemma_mul_is_commutative(ss, n);
}

/// The state of a region in which no worker has taken anything: all slabs were put on the
/// global free stack, one after another.
pub open spec fn fresh_state(l: RawLayout) -> AssignedState {
    AssignedState {
        generation: l.num_slabs,
        lists: Seq::new(
            (1 + 10 * l.num_workers) as nat,
            |k: int|
                if k == 0 {
                    Seq::new(l.num_slabs as nat, |i: int| i as u32)
                } else {
                    Seq::empty()
                },
        ),
        assigned: Seq::new(l.num_slabs as nat, |i: int| NULL_U32),
        class: Seq::new(l.num_slabs as nat, |i: int| 0u64),
        stack: Seq::new(l.num_slabs as nat, |i: int| Seq::empty()),
        remote: Seq::new(l.num_slabs as nat, |i: int| Seq::empty()),
    }
}

/// Every slab is on the global free stack, the lowest first, and no worker has any.
pub open spec fn all_free(l: RawLayout, t: RawTables) -> bool {
    &&& linked(t.next, index_of(t.ghead), Seq::new(l.num_slabs as nat, |i: int| i as u32))
    &&& generation_of(t.ghead) == l.num_slabs
    &&& forall|i: int| 0 <= i < l.num_slabs ==> #[trigger] t.assigned[i] == NULL_U32
    &&& forall|i: int| 0 <= i < l.num_slabs ==> #[trigger] t.class[i] == 0
    &&& forall|i: int| 0 <= i < l.num_slabs ==> #[trigger] t.stack[i] == Seq::<u16>::empty()
    &&& forall|k: int| 0 <= k < 10 * l.num_workers ==> #[trigger] t.heads[k] == NULL_U32
}

/// Zero bytes form a zero word.
proof fn lemma_zero(mem: Seq<u8>, off: int, width: nat)
    requires
        forall|i: int| off <= i < off + width ==> #[trigger] mem[i] == 0,
    ensures
        word(mem, off, width) == 0,
    decreases width,
{
    if width > 0 {
        lemma_zero(mem, off + 1, (width - 1) as nat);
    }
}

/// A fresh region holds the fresh state, is in order and has nothing in use.
proof fn lemma_fresh(l: RawLayout, mem: Seq<u8>)
    requires
        l.wf(),
        l.fits(mem.len() as int),
        all_free(l, l.tables(mem)),
    ensures
        l.holds(mem, fresh_state(l)),
        fresh_state(l).ok(l),
        fresh_state(l).live(l) == Set::<int>::empty(),
{
    let s = fresh_state(l);
    let t = l.tables(mem);
    let slabs = s.slabs_state(l);
    assert(s.assigned =~= t.assigned);
    assert(s.class =~= t.class.map_values(|c: u8| c as u64));
    assert(s.stack =~= t.stack);
    assert(s.lists[0] =~= Seq::new(l.num_slabs as nat, |i: int| i as u32));
    assert forall|k: int| 1 <= k < s.lists.len() implies crate::links::dlinked(
        t.prev,
        t.next,
        t.heads[k - 1],
        #[trigger] s.lists[k],
    ) by {
        let j = k - 1;
        assert(t.heads[j] == NULL_U32);
    }
    reveal(RawLayout::holds);
    assert(l.holds(mem, s));
    assert forall|k: int, j: int|
        0 <= k < slabs.lists.len() && 0 <= j < slabs.lists[k].len() implies (
    #[trigger] slabs.lists[k][j]) < slabs.places().len()
        && slabs.places()[slabs.lists[k][j] as int] == k by {}
    assert forall|i: int| 0 <= i < slabs.places().len() && slabs.places()[i] != -1 implies 0
        <= #[trigger] slabs.places()[i] < slabs.lists.len()
        && slabs.lists[slabs.places()[i]].contains(i as u32) by {
        assert(slabs.lists[0][i] == i as u32);
    }
    assert forall|i: int| 0 <= i < l.num_slabs implies #[trigger] slabs.slab_ok(l.slabs(), i) by {}
    assert forall|i: int| 0 <= i < l.num_slabs implies #[trigger] s.remote_ok(l, i) by {}
    assert(s.live(l) =~= Set::empty()) by {
        assert forall|off: int| !s.live(l).contains(off) by {
            if slabs.is_slot(l.slabs(), off) {
                lemma_div_pos_is_pos(off - l.slab_offset, l.slab_size as int);
            }
        }
    }
}

/// Where the metadata of the slabs starts.
fn metas_start(num_workers: u32) -> (offset: u64)
    ensures
        offset == metas_at(num_workers as int),
{
    (128 + num_workers as u64 * 40 + 63) / 64 * 64
}

/// Whether a region of `size` bytes has room for the header and the given workers.
pub fn room_for(num_workers: u32, slab_size: u32, size: usize) -> (room: bool)
    requires
        is_pow2(slab_size as int),
    ensures
        room == has_room(num_workers, slab_size, size as int),
{
    proof {
        let k = choose|k: nat| slab_size as int == #[trigger] pow2(k);
        lemma_pow2_pos(k);
        lemma_slabs_fit(num_workers as int, slab_size as int, size as u32 as int, 0);
        lemma_mul_basics(meta_bytes(slab_size as int));
        lemma_mul_basics(slab_size as int);
        lemma_mul_basics(meta_bytes(slab_size as int) + slab_size);
        lemma_fundamental_div_mod(size as u32 as int, slab_size as int);
        lemma_mod_bound(size as u32 as int, slab_size as int);
        lemma_mul_is_commutative(slab_size as int, size as u32 as int / slab_size as int);
    }
    let whole = size as u32 / slab_size * slab_size;
    metas_start(num_workers) <= whole as u64
}

/// Creates the allocator in the region `mem`, mapped at `header`. The region is fresh: its
/// bytes are those of a new file that was extended to that size.
pub fn create_allocator(
    mem: &mut [u8],
    header: usize,
    num_workers: u32,
    slab_size: u32,
) -> (result: Result<RawAllocator, Error>)
    requires
        header + old(mem)@.len() <= usize::MAX,
        is_pow2(slab_size as int) ==> has_room(num_workers, slab_size, old(mem)@.len() as int),
        forall|i: int| 0 <= i < old(mem)@.len() ==> #[trigger] old(mem)@[i] == 0,
    ensures
        !is_pow2(slab_size as int) ==> result == Err::<RawAllocator, Error>(Error::InvalidSlabSize)
            && final(mem)@ == old(mem)@,
        is_pow2(slab_size as int) ==> {
            let l = raw_layout(num_workers, slab_size, old(mem)@.len() as int);
            &&& result == Ok::<RawAllocator, Error>(RawAllocator { header })
            &&& Header::of(final(mem)@).magic == MAGIC
            &&& Header::of(final(mem)@).version == VERSION
            &&& Header::of(final(mem)@).layout_spec() == l
            &&& l.slab_offset == slabs_at(
                num_workers as int,
                slab_size as int,
                l.num_slabs as int,
            )
            &&& l.slab_offset % slab_size == 0
            &&& l.slab_meta_offset + l.num_slabs * l.slab_meta_size <= l.slab_offset
            &&& l.slab_offset + l.num_slabs * slab_size <= old(mem)@.len()
            &&& forall|n: int|
                l.num_slabs < n ==> #[trigger] slabs_at(num_workers as int, slab_size as int, n) + n
                    * slab_size > old(mem)@.len() as u32
            &&& (RawAllocator { header }).valid(final(mem)@)
            &&& l.state(final(mem)@) == fresh_state(l)
            &&& agree(old(mem)@, final(mem)@, l.slab_offset as int, old(mem)@.len() as int)
        },
        final(mem)@.len() == old(mem)@.len(),
{
    if !is_power_of_two(slab_size) {
        return Err(Error::InvalidSlabSize);
    }
    let ghost m0 = mem@;
    let size = mem.len();
    let ghost l = raw_layout(num_workers, slab_size, size as int);
    let ghost n = l.num_slabs as int;
    proof {
        lemma2_to64();
        assert(pow2(6) == SLAB_META_ALIGN);
        lemma_layout(num_workers, slab_size, size as int);
        law_most_slabs(num_workers as int, slab_size as int, size as u32 as int);
        l.lemma_bounds();
        lemma_fundamental_div_mod(size as u32 as int, slab_size as int);
        lemma_mod_bound(size as u32 as int, slab_size as int);
        lemma_mul_is_commutative(slab_size as int, size as u32 as int / slab_size as int);
    }
    let slab_meta_offset = metas_start(num_workers);
    // Each SlabMeta is aligned to SLAB_META_ALIGN
    let slab_meta_size = round_to_next_alignment_of::<SLAB_META_ALIGN>(
        SLAB_META_SIZE + (slab_size / MIN_SIZE) as usize * 2,
    ) as u64;
    // Each slab comes with its metadata.
    let whole = size as u32 / slab_size * slab_size;
    let num_slabs = ((whole as u64 - slab_meta_offset) / (slab_meta_size + slab_size as u64)) as u32;
    // Total header and meta size - round to next multiple of slab size.
    let slab = slab_size as u64;
    let total_meta_size = (slab_meta_offset + num_slabs as u64 * slab_meta_size + slab - 1) / slab
        * slab;
    let created = Header {
        magic: MAGIC,
        version: VERSION,
        num_workers,
        num_slabs,
        slab_meta_size: slab_meta_size as u32,
        slab_meta_offset: slab_meta_offset as u32,
        slab_size,
        slab_offset: total_meta_size as u32,
        global_free_stack: CacheAligned(pack_index(0, NULL_U32)),
    };
    created.write(mem);
    let allocator = RawAllocator { header };
    let ghost m1 = mem@;
    proof {
        assert(created.layout_spec() == l);
        crate::global_free_list::law_pack_round_trip(0, NULL_U32, created.global_free_stack.0);
        let t = l.tables(m1);
        assert forall|i: int| 0 <= i < n implies #[trigger] t.class[i] == 0 by {
            l.lemma_meta_within(i);
            lemma_zero(m1, l.meta_at(i) + 12, 1);
        }
        assert forall|i: int| 0 <= i < n implies #[trigger] t.stack[i] == Seq::<u16>::empty() by {
            l.lemma_meta_within(i);
            lemma_zero(m1, l.meta_at(i) + STACK, 2);
            assert(t.stack[i] =~= Seq::empty());
        }
        assert(Seq::new((num_slabs - num_slabs) as nat, |i: int| (num_slabs + i) as u32)
            =~= Seq::empty());
    }
    // Initialize slabs in the global free stack.
    let mut index: u32 = num_slabs;
    while index > 0
        invariant
            index <= num_slabs,
            num_slabs == l.num_slabs == n,
            l.metas_apart(),
            128 <= mem@.len(),
            mem@.len() == m0.len(),
            l.slab_meta_offset + l.num_slabs * l.slab_meta_size <= mem@.len() <= usize::MAX,
            allocator.layout(mem@) == l,
            Header::of(mem@).magic == MAGIC,
            Header::of(mem@).version == VERSION,
            linked(
                l.tables(mem@).next,
                index_of(l.tables(mem@).ghead),
                Seq::new((num_slabs - index) as nat, |i: int| (index + i) as u32),
            ),
            generation_of(l.tables(mem@).ghead) == num_slabs - index,
            forall|i: int|
                index <= i < n ==> #[trigger] l.tables(mem@).assigned[i] == NULL_U32,
            forall|i: int| 0 <= i < n ==> #[trigger] l.tables(mem@).class[i] == 0,
            forall|i: int|
                0 <= i < n ==> #[trigger] l.tables(mem@).stack[i] == Seq::<u16>::empty(),
            128 <= l.slab_meta_offset,
            l.slab_meta_offset + l.num_slabs * l.slab_meta_size <= l.slab_offset,
            agree(m0, mem@, l.slab_offset as int, m0.len() as int),
        decreases index,
    {
        let ghost t = l.tables(mem@);
        let ghost before = mem@;
        let ghost list = Seq::new((num_slabs - index) as nat, |i: int| (index + i) as u32);
        index = index - 1;
        proof {
            l.lemma_meta_within(index as int);
        }
        return_the_slab(&allocator, mem, index);
        proof {
            if list.contains(index) {
                let i = list.index_of(index);
                assert(list[i] == (index + 1 + i) as u32);
            }
            crate::links::lemma_linked_push(t.next, index_of(t.ghead), list, index);
            crate::global_free_list::law_pack_round_trip(
                next_generation(generation_of(t.ghead)),
                index,
                l.tables(mem@).ghead,
            );
            assert(seq![index] + list =~= Seq::new(
                (num_slabs - index) as nat,
                |i: int| (index + i) as u32,
            ));
            Header::lemma_same(before, mem@);
        }
    }
    let ghost m2 = mem@;
    assert(Seq::new((num_slabs - index) as nat, |i: int| (index + i) as u32) =~= Seq::new(
        num_slabs as nat,
        |i: int| i as u32,
    ));
    // Initialize worker states.
    clear_heads(mem, num_workers, Ghost(l));
    proof {
        Header::lemma_same(m2, mem@);
        let t = l.tables(m2);
        assert forall|i: int| 0 <= i < l.num_slabs implies (#[trigger] t.stack[i]).len()
            <= l.slab_size / 256 by {
            assert(t.stack[i] == Seq::<u16>::empty());
        }
        crate::memory::lemma_word_same(m2, mem@, GLOBAL_FREE_STACK as int, 8);
        l.lemma_all_rows_same(m2, mem@);
        lemma_fresh(l, mem@);
        l.lemma_state(mem@, fresh_state(l));
    }
    Ok(allocator)
}

/// Which of the words of the workers' states holds a head.
proof fn lemma_head_word(l: RawLayout, h: int) -> (j: int)
    requires
        0 <= h < 10 * l.num_workers,
    ensures
        0 <= j < 10 * l.num_workers,
        l.head_at(h / 10, h % 10) == WORKER_STATES + 4 * j,
{
    10 * (h / 10) + (h % 10) / 2 + 5 * ((h % 10) % 2)
}

/// Empties the lists of all workers.
fn clear_heads(mem: &mut [u8], num_workers: u32, Ghost(l): Ghost<RawLayout>)
    requires
        WORKER_STATES + num_workers * WORKER_STATE_SIZE <= old(mem)@.len() <= usize::MAX,
        num_workers == l.num_workers,
    ensures
        forall|k: int|
            0 <= k < 10 * num_workers ==> #[trigger] l.tables(final(mem)@).heads[k] == NULL_U32,
        same_outside(
            old(mem)@,
            final(mem)@,
            WORKER_STATES as int,
            WORKER_STATES + num_workers * WORKER_STATE_SIZE,
        ),
{
    let ghost m0 = mem@;
    let total = num_workers as usize * 10;
    let mut k: usize = 0;
    while k < total
        invariant
            k <= total,
            total == 10 * num_workers,
            WORKER_STATES + num_workers * WORKER_STATE_SIZE <= mem@.len() <= usize::MAX,
            forall|j: int| 0 <= j < k ==> #[trigger] u32_at(mem@, WORKER_STATES + 4 * j) == NULL_U32,
            same_outside(
                m0,
                mem@,
                WORKER_STATES as int,
                WORKER_STATES + num_workers * WORKER_STATE_SIZE,
            ),
        decreases total - k,
    {
        let ghost before = mem@;
        store_u32(mem, WORKER_STATES + 4 * k, NULL_U32);
        proof {
            assert forall|j: int| 0 <= j < k + 1 implies #[trigger] u32_at(
                mem@,
                WORKER_STATES + 4 * j,
            ) == NULL_U32 by {
                if j < k {
                    crate::memory::lemma_word_same(before, mem@, WORKER_STATES + 4 * j, 4);
                    assert(u32_at(before, WORKER_STATES + 4 * j) == NULL_U32);
                }
            }
        }
        k = k + 1;
    }
    proof {
        assert forall|h: int| 0 <= h < 10 * num_workers implies #[trigger] l.tables(mem@).heads[h]
            == NULL_U32 by {
            let j = lemma_head_word(l, h);
            assert(u32_at(mem@, WORKER_STATES + 4 * j) == NULL_U32);
        }
    }
}

/// Joins the allocator in a region that is mapped at `header`.
pub fn join_allocator(header: usize) -> (allocator: RawAllocator)
    ensures
        allocator == (RawAllocator { header }),
{
    RawAllocator { header }
}

/// The states of the workers take 40 bytes each, after 128; the metadata of a slab takes 192 bytes
/// and 2 for each 256 bytes of the slab; both are padded to 64 bytes, and the slabs start as soon
/// after all the metadata as a multiple of their size permits.
pub proof fn law_places(num_workers: int, slab_size: int, num_slabs: int)
    requires
        0 <= num_workers,
        0 < slab_size,
        0 <= num_slabs,
    ensures
        metas_at(num_workers) % 64 == 0,
        128 + 40 * num_workers <= metas_at(num_workers) < 192 + 40 * num_workers,
        meta_bytes(slab_size) % 64 == 0,
        192 + 2 * (slab_size / 256) <= meta_bytes(slab_size) < 256 + 2 * (slab_size / 256),
        slabs_at(num_workers, slab_size, num_slabs) % slab_size == 0,
        metas_at(num_workers) + num_slabs * meta_bytes(slab_size) <= slabs_at(
            num_workers,
            slab_size,
            num_slabs,
        ) < metas_at(num_workers) + num_slabs * meta_bytes(slab_size) + slab_size,
{
    lemma_round_up(WORKER_STATES + num_workers * WORKER_STATE_SIZE, SLAB_META_ALIGN as int);
    lemma_round_up(SLAB_META_SIZE + slab_size / MIN_SIZE as int * 2, SLAB_META_ALIGN as int);
    lemma_round_up(metas_at(num_workers) + num_slabs * meta_bytes(slab_size), slab_size);
}

/// A region has room if its whole slabs hold the header and the states of the workers.
pub proof fn law_room(num_workers: u32, slab_size: u32, size: int)
    requires
        0 < slab_size,
        0 <= size <= u32::MAX,
    ensures
        has_room(num_workers, slab_size, size) <==> metas_at(num_workers as int) <= size - size
            % slab_size as int,
{
    let ss = slab_size as int;
    assert(size as u32 == size);
    lemma_slabs_fit(num_workers as int, ss, size, 0);
    lemma_mul_basics(meta_bytes(ss));
    lemma_mul_basics(ss);
    lemma_mul_basics(meta_bytes(ss) + ss);
    lemma_fundamental_div_mod(size, ss);
    lemma_mul_is_commutative(ss, size / ss);
}

} // verus!
