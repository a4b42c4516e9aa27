//! Where the parts of the allocator lie in the region.
//!
//! ```text
//! [header]
//! [worker_local_list_heads; num_workers]
//! [free_list_elements; num_slabs]
//! [slab_shared_meta; num_slabs]
//! [slab_free_stacks; num_slabs]
//! [slabs; num_slabs]
//! ```
//!
//! Padding keeps each part aligned, and the slabs start at a multiple of the slab size.
use crate::align::{is_pow2, round_to_next_alignment_of, round_up};
use crate::free_stack::FreeStack;
use crate::size_classes::MIN_SIZE;
use vstd::arithmetic::div_mod::*;
use vstd::arithmetic::mul::*;
use vstd::prelude::*;

verus! {

/// The size of the header in bytes, with the padding before the worker heads.
pub const HEADER_SIZE: usize = 128;

/// The size of one worker's list heads in bytes.
pub const WORKER_HEADS_SIZE: usize = 64;

/// The size of one free list element in bytes, and its alignment.
pub const NODE_SIZE: usize = 12;

pub const NODE_ALIGN: usize = 4;

/// The size of one slab's shared metadata in bytes, and its alignment.
pub const SLAB_META_SIZE: usize = 128;

pub const SLAB_META_ALIGN: usize = 64;

/// The alignment of the slab free stacks.
pub const FREE_STACK_ALIGN: usize = 8;

#[derive(Debug, Clone, Copy, PartialEq, Eq, Structural)]
pub struct AllocatorLayout {
    /// The number of slabs in the allocator.
    pub num_slabs: u32,
    /// The offset in bytes to the free list elements.
    pub free_list_elements_offset: u32,
    /// The offset in bytes to the slab shared metadata.
    pub slab_shared_meta_offset: u32,
    /// The offset in bytes to the slab free stacks.
    pub slab_free_stacks_offset: u32,
    /// The offset in bytes to the slabs.
    pub slabs_offset: u32,
}

/// How many workers fit, and how the slabs are divided between metadata and use.
#[derive(Debug, Clone, Copy, PartialEq, Eq, Structural)]
pub struct WorkerLimits {
    pub meta_slabs: u32,
    pub usable_slabs: u32,
    pub max_workers: u32,
}

/// Bytes of a free stack that can hold every slot of a slab of the smallest class.
pub open spec fn free_stack_bytes(slab_size: int) -> int {
    4 + 2 * ((slab_size / 256) as u16)
}

/// Where the free list elements start.
pub open spec fn elements_at(num_workers: int) -> int {
    round_up(HEADER_SIZE + WORKER_HEADS_SIZE * num_workers, NODE_ALIGN as int)
}

/// Where the slab metadata starts.
pub open spec fn metas_at(num_workers: int, num_slabs: int) -> int {
    round_up(elements_at(num_workers) + NODE_SIZE * num_slabs, SLAB_META_ALIGN as int)
}

/// Where the free stacks start.
pub open spec fn stacks_at(num_workers: int, num_slabs: int) -> int {
    round_up(metas_at(num_workers, num_slabs) + SLAB_META_SIZE * num_slabs, FREE_STACK_ALIGN as int)
}

/// Where the free stacks end.
pub open spec fn stacks_end(num_workers: int, slab_size: int, num_slabs: int) -> int {
    stacks_at(num_workers, num_slabs) + free_stack_bytes(slab_size) * num_slabs
}

/// Where the slabs start.
pub open spec fn slabs_at(num_workers: int, slab_size: int, num_slabs: int) -> int {
    round_up(stacks_end(num_workers, slab_size, num_slabs), slab_size)
}

/// The offsets can be computed without leaving the range of `usize`.
pub open spec fn layout_fits(num_workers: int, slab_size: int, num_slabs: int) -> bool {
    stacks_end(num_workers, slab_size, num_slabs) + slab_size + SLAB_META_ALIGN <= usize::MAX
}

/// The layout for the given numbers; the region stores offsets as 32-bit words.
pub open spec fn layout_spec(num_workers: int, slab_size: int, num_slabs: u32) -> AllocatorLayout {
    AllocatorLayout {
        num_slabs,
        free_list_elements_offset: elements_at(num_workers) as u32,
        slab_shared_meta_offset: metas_at(num_workers, num_slabs as int) as u32,
        slab_free_stacks_offset: stacks_at(num_workers, num_slabs as int) as u32,
        slabs_offset: slabs_at(num_workers, slab_size, num_slabs as int) as u32,
    }
}

/// How many slabs a region of `file_size` bytes spans, as a 32-bit count.
pub open spec fn total_slabs(file_size: int, slab_size: int) -> u32 {
    (file_size / slab_size) as u32
}

/// Where the slabs would start without any worker, as the region stores it.
pub open spec fn base_meta_bytes(slab_size: int, usable_slabs: int) -> u32 {
    slabs_at(0, slab_size, usable_slabs) as u32
}

/// How many slabs the metadata takes without any worker.
pub open spec fn needed_meta_slabs(slab_size: int, usable_slabs: int) -> int {
    (base_meta_bytes(slab_size, usable_slabs) + slab_size - 1) / slab_size
}

/// How many workers fit in what `meta_slabs` slabs leave over.
pub open spec fn workers_in_slack(slab_size: int, meta_slabs: int, usable_slabs: int) -> u32 {
    ((meta_slabs * slab_size - base_meta_bytes(slab_size, usable_slabs)) / WORKER_HEADS_SIZE as int) as u32
}

/// The division reached when `meta_slabs` slabs are tried for metadata and, while they
/// do not suffice, as many as the metadata needs, or else one more.
pub open spec fn worker_limits(
    total: int,
    slab_size: int,
    min_workers: int,
    meta_slabs: int,
) -> Option<WorkerLimits>
    decreases (if total > meta_slabs { total - meta_slabs } else { 0 }),
{
    if meta_slabs >= total {
        None
    } else {
        let usable = total - meta_slabs;
        let needed = needed_meta_slabs(slab_size, usable);
        if needed > meta_slabs {
            worker_limits(total, slab_size, min_workers, needed)
        } else if workers_in_slack(slab_size, meta_slabs, usable) < min_workers {
            worker_limits(total, slab_size, min_workers, meta_slabs + 1)
        } else {
            Some(
                WorkerLimits {
                    meta_slabs: meta_slabs as u32,
                    usable_slabs: usable as u32,
                    max_workers: workers_in_slack(slab_size, meta_slabs, usable),
                },
            )
        }
    }
}

/// What `max_workers` returns.
pub open spec fn max_workers_spec(file_size: int, slab_size: int, min_workers: int) -> Option<
    WorkerLimits,
> {
    if slab_size == 0 {
        None
    } else {
        worker_limits(total_slabs(file_size, slab_size) as int, slab_size, min_workers, 1)
    }
}

/// The parts come one after another, each aligned, and the slabs at a multiple of their size.
pub proof fn law_layout_ordered(num_workers: int, slab_size: int, num_slabs: int)
    requires
        0 <= num_workers,
        0 < slab_size,
        0 <= num_slabs,
    ensures
        HEADER_SIZE + WORKER_HEADS_SIZE * num_workers <= elements_at(num_workers),
        elements_at(num_workers) + NODE_SIZE * num_slabs <= metas_at(num_workers, num_slabs),
        metas_at(num_workers, num_slabs) + SLAB_META_SIZE * num_slabs <= stacks_at(
            num_workers,
            num_slabs,
        ),
        stacks_at(num_workers, num_slabs) + free_stack_bytes(slab_size) * num_slabs <= slabs_at(
            num_workers,
            slab_size,
            num_slabs,
        ),
        free_stack_bytes(slab_size) * num_slabs >= 0,
        elements_at(num_workers) % NODE_ALIGN as int == 0,
        metas_at(num_workers, num_slabs) % SLAB_META_ALIGN as int == 0,
        stacks_at(num_workers, num_slabs) % FREE_STACK_ALIGN as int == 0,
        slabs_at(num_workers, slab_size, num_slabs) % slab_size == 0,
{
    crate::align::lemma_round_up(HEADER_SIZE + WORKER_HEADS_SIZE * num_workers, NODE_ALIGN as int);
    crate::align::lemma_round_up(
        elements_at(num_workers) + NODE_SIZE * num_slabs,
        SLAB_META_ALIGN as int,
    );
    crate::align::lemma_round_up(
        metas_at(num_workers, num_slabs) + SLAB_META_SIZE * num_slabs,
        FREE_STACK_ALIGN as int,
    );
    crate::align::lemma_round_up(stacks_end(num_workers, slab_size, num_slabs), slab_size);
    lemma_mul_nonnegative(free_stack_bytes(slab_size), num_slabs);
}

/// Each worker moves the parts after the worker heads by the size of its heads, and by no more.
proof fn lemma_workers_shift(num_workers: int, slab_size: int, num_slabs: int)
    requires
        0 <= num_workers,
        0 <= num_slabs,
    ensures
        stacks_end(num_workers, slab_size, num_slabs) == stacks_end(0, slab_size, num_slabs)
            + WORKER_HEADS_SIZE * num_workers,
{
    lemma_round_up_shift(HEADER_SIZE as int, NODE_ALIGN as int, 16 * num_workers);
    lemma_round_up_shift(
        elements_at(0) + NODE_SIZE * num_slabs,
        SLAB_META_ALIGN as int,
        num_workers,
    );
    lemma_round_up_shift(
        metas_at(0, num_slabs) + SLAB_META_SIZE * num_slabs,
        FREE_STACK_ALIGN as int,
        8 * num_workers,
    );
}

/// Rounding up and adding a multiple can be done in either order.
proof fn lemma_round_up_shift(value: int, align: int, n: int)
    requires
        0 < align,
    ensures
        round_up(value + align * n, align) == round_up(value, align) + align * n,
{
    let q = (value + align - 1) / align;
    lemma_hoist_over_denominator(value + align - 1, n, align as nat);
    lemma_mul_is_commutative(n, align);
    lemma_mul_is_distributive_add_other_way(align, q, n);
}

proof fn lemma_stacks_end_grows(slab_size: int, fewer: int, more: int)
    requires
        0 <= fewer <= more,
        0 < slab_size,
    ensures
        stacks_end(0, slab_size, fewer) <= stacks_end(0, slab_size, more),
{
    lemma_mul_inequality(fewer, more, free_stack_bytes(slab_size));
    lemma_mul_is_commutative(fewer, free_stack_bytes(slab_size));
    lemma_mul_is_commutative(more, free_stack_bytes(slab_size));
}

proof fn lemma_limits(total: int, slab_size: int, min_workers: int, meta_slabs: int)
    requires
        0 < slab_size,
        0 <= meta_slabs,
        total <= u32::MAX,
    ensures
        worker_limits(total, slab_size, min_workers, meta_slabs) matches Some(l) ==> {
            &&& l.meta_slabs + l.usable_slabs == total
            &&& l.usable_slabs > 0
            &&& meta_slabs <= l.meta_slabs
            &&& needed_meta_slabs(slab_size, l.usable_slabs as int) <= l.meta_slabs
            &&& l.max_workers == workers_in_slack(
                slab_size,
                l.meta_slabs as int,
                l.usable_slabs as int,
            )
            &&& min_workers <= l.max_workers
            &&& forall|asked: int|
                min_workers <= asked <= l.max_workers ==> #[trigger] worker_limits(
                    total,
                    slab_size,
                    asked,
                    meta_slabs,
                ) == Some(l)
        },
    decreases (if total > meta_slabs { total - meta_slabs } else { 0 }),
{
    if meta_slabs < total {
        let needed = needed_meta_slabs(slab_size, total - meta_slabs);
        let next = if needed > meta_slabs {
            needed
        } else {
            meta_slabs + 1
        };
        if needed > meta_slabs || workers_in_slack(slab_size, meta_slabs, total - meta_slabs)
            < min_workers {
            lemma_limits(total, slab_size, min_workers, next);
            assert forall|asked: int| min_workers <= asked implies #[trigger] worker_limits(
                total,
                slab_size,
                asked,
                meta_slabs,
            ) == worker_limits(total, slab_size, asked, next) by {}
        }
    }
}

/// What the granted division is bounded by.
pub proof fn lemma_granted(total: int, slab_size: int, min_workers: int)
    requires
        0 < slab_size,
        0 <= total <= u32::MAX,
    ensures
        worker_limits(total, slab_size, min_workers, 1) matches Some(l) ==> {
            &&& l.meta_slabs + l.usable_slabs == total
            &&& 0 < l.usable_slabs
            &&& WORKER_HEADS_SIZE * l.max_workers <= total * slab_size
        },
{
    lemma_limits(total, slab_size, min_workers, 1);
    if let Some(l) = worker_limits(total, slab_size, min_workers, 1) {
        let meta = l.meta_slabs as int;
        let usable = l.usable_slabs as int;
        let base = base_meta_bytes(slab_size, usable) as int;
        lemma_ceil_le(base, slab_size);
        lemma_mul_inequality(needed_meta_slabs(slab_size, usable), meta, slab_size);
        lemma_mul_inequality(meta, total, slab_size);
        lemma_small_mod_u32((meta * slab_size - base) / WORKER_HEADS_SIZE as int);
    }
}

/// The metadata of slabs is a small part of their size.
pub proof fn lemma_stacks_end_bound(slab_size: int, num_slabs: int)
    requires
        slab_size >= 16384,
        0 <= num_slabs,
    ensures
        0 <= stacks_end(0, slab_size, num_slabs) <= 512 + num_slabs * slab_size / 32,
        forall|num_workers: int|
            0 <= num_workers ==> #[trigger] stacks_end(num_workers, slab_size, num_slabs)
                == stacks_end(0, slab_size, num_slabs) + WORKER_HEADS_SIZE * num_workers,
{
    law_layout_ordered(0, slab_size, num_slabs);
    crate::align::lemma_round_up(HEADER_SIZE as int, NODE_ALIGN as int);
    crate::align::lemma_round_up(
        elements_at(0) + NODE_SIZE * num_slabs,
        SLAB_META_ALIGN as int,
    );
    crate::align::lemma_round_up(
        metas_at(0, num_slabs) + SLAB_META_SIZE * num_slabs,
        FREE_STACK_ALIGN as int,
    );
    lemma_small_mod_u16(slab_size / 256);
    let bytes = free_stack_bytes(slab_size);
    assert(bytes <= 4 + slab_size / 128);
    assert(140 + bytes <= slab_size / 32);
    lemma_mul_inequality(140 + bytes, slab_size / 32, num_slabs);
    lemma_mul_is_distributive_add_other_way(num_slabs, 140, bytes);
    lemma_mul_is_commutative(slab_size / 32, num_slabs);
    assert(num_slabs * (slab_size / 32) <= num_slabs * slab_size / 32) by {
        lemma_mul_hoist(num_slabs, slab_size);
    }
    assert forall|num_workers: int| 0 <= num_workers implies #[trigger] stacks_end(
        num_workers,
        slab_size,
        num_slabs,
    ) == stacks_end(0, slab_size, num_slabs) + WORKER_HEADS_SIZE * num_workers by {
        lemma_workers_shift(num_workers, slab_size, num_slabs);
    }
}

proof fn lemma_mul_hoist(n: int, size: int)
    requires
        0 <= n,
        0 <= size,
    ensures
        n * (size / 32) <= n * size / 32,
{
    lemma_mul_hoist_inequality(n, size, 32);
}

proof fn lemma_small_mod_u16(q: int)
    requires
        0 <= q,
    ensures
        (q as u16) <= q,
{
    if q < 0x1_0000 {
        assert(q as u16 == q);
    }
}

/// Without workers the slabs start no later than with some.
pub proof fn lemma_fewer_workers(num_workers: int, slab_size: int, num_slabs: int)
    requires
        0 <= num_workers,
        0 <= num_slabs,
        0 < slab_size,
    ensures
        slabs_at(0, slab_size, num_slabs) <= slabs_at(num_workers, slab_size, num_slabs),
{
    lemma_workers_shift(num_workers, slab_size, num_slabs);
    let less = stacks_end(0, slab_size, num_slabs) + slab_size - 1;
    let more = stacks_end(num_workers, slab_size, num_slabs) + slab_size - 1;
    lemma_div_is_ordered(less, more, slab_size);
    lemma_mul_inequality(less / slab_size, more / slab_size, slab_size);
}

/// Asking for more workers, up to as many as were granted, gives the same division, so
/// whoever joins a region arrives at the layout that its creator chose.
pub proof fn law_limits_stable(file_size: int, slab_size: int, min_workers: int, asked: int)
    requires
        0 <= file_size,
        0 <= slab_size,
        min_workers <= asked,
    ensures
        max_workers_spec(file_size, slab_size, min_workers) matches Some(l) ==> asked
            <= l.max_workers ==> max_workers_spec(file_size, slab_size, asked) == Some(l),
{
    if slab_size > 0 {
        lemma_limits(total_slabs(file_size, slab_size) as int, slab_size, min_workers, 1);
    }
}

/// The slabs and the metadata of the granted division fit in the region: the metadata of all
/// granted workers ends within the slabs set aside for it, and at least as many workers are
/// granted as were asked for. Holds while the region is small enough for 32-bit offsets.
pub proof fn law_limits_fit(file_size: int, slab_size: int, min_workers: int)
    requires
        0 <= file_size,
        0 < slab_size,
        file_size / slab_size <= u32::MAX,
    ensures
        max_workers_spec(file_size, slab_size, min_workers) matches Some(l) ==> {
            &&& l.max_workers >= min_workers
            &&& l.meta_slabs + l.usable_slabs == file_size / slab_size
            &&& l.usable_slabs > 0
            &&& slabs_at(0, slab_size, l.usable_slabs as int) <= u32::MAX ==> {
                &&& slabs_at(l.max_workers as int, slab_size, l.usable_slabs as int)
                    <= l.meta_slabs * slab_size
                &&& slabs_at(l.max_workers as int, slab_size, l.usable_slabs as int)
                    + l.usable_slabs * slab_size <= file_size
            }
        },
{
    lemma_div_pos_is_pos(file_size, slab_size);
    let total = total_slabs(file_size, slab_size) as int;
    assert(total == file_size / slab_size);
    lemma_limits(total, slab_size, min_workers, 1);
    if let Some(l) = max_workers_spec(file_size, slab_size, min_workers) {
        let meta = l.meta_slabs as int;
        let usable = l.usable_slabs as int;
        let workers = l.max_workers as int;
        if slabs_at(0, slab_size, usable) <= u32::MAX {
            law_layout_ordered(0, slab_size, usable);
            let base = slabs_at(0, slab_size, usable);
            assert(base == base_meta_bytes(slab_size, usable));
            lemma_ceil_le(base, slab_size);
            let needed = needed_meta_slabs(slab_size, usable);
            lemma_mul_inequality(needed, meta, slab_size);
            let slack = meta * slab_size - base;
            lemma_small_mod_u32(slack / WORKER_HEADS_SIZE as int);
            assert(WORKER_HEADS_SIZE * workers <= slack);
            lemma_workers_shift(workers, slab_size, usable);
            assert(stacks_end(workers, slab_size, usable) <= meta * slab_size);
            lemma_round_up_le(stacks_end(workers, slab_size, usable), meta, slab_size);
            lemma_mul_is_distributive_add_other_way(slab_size, meta, usable);
            lemma_fundamental_div_mod(file_size, slab_size);
            lemma_mul_is_commutative(total, slab_size);
        }
    }
}

/// A value that is at most a multiple is still at most that multiple when rounded up.
pub proof fn lemma_round_up_le(value: int, multiple: int, size: int)
    requires
        0 < size,
        value <= multiple * size,
    ensures
        round_up(value, size) <= multiple * size,
{
    let q = (value + size - 1) / size;
    lemma_fundamental_div_mod(value + size - 1, size);
    lemma_mul_is_commutative(q, size);
    if q > multiple {
        lemma_mul_inequality(multiple + 1, q, size);
        lemma_mul_is_distributive_add_other_way(size, multiple, 1);
    } else {
        lemma_mul_inequality(q, multiple, size);
    }
}

/// Each part starts as soon after the one before as its alignment permits: the heads of the
/// workers after 128 bytes, with 64 bytes each; then 12 bytes, then 128 bytes, and then 4 bytes
/// and 2 for each 256 bytes of a slab, for each slab; and the slabs at a multiple of their size.
pub proof fn law_layout_tight(num_workers: int, slab_size: int, num_slabs: int)
    requires
        0 <= num_workers,
        0 < slab_size,
        slab_size / 256 <= u16::MAX,
        0 <= num_slabs,
    ensures
        elements_at(num_workers) == 128 + 64 * num_workers,
        metas_at(num_workers, num_slabs) % 64 == 0,
        128 + 64 * num_workers + 12 * num_slabs <= metas_at(num_workers, num_slabs) < 128 + 64
            * num_workers + 12 * num_slabs + 64,
        stacks_at(num_workers, num_slabs) == metas_at(num_workers, num_slabs) + 128 * num_slabs,
        slabs_at(num_workers, slab_size, num_slabs) % slab_size == 0,
        stacks_at(num_workers, num_slabs) + (4 + 2 * (slab_size / 256)) * num_slabs <= slabs_at(
            num_workers,
            slab_size,
            num_slabs,
        ) < stacks_at(num_workers, num_slabs) + (4 + 2 * (slab_size / 256)) * num_slabs + slab_size,
{
    law_layout_ordered(num_workers, slab_size, num_slabs);
    lemma_div_pos_is_pos(slab_size, 256);
    assert((slab_size / 256) as u16 == slab_size / 256);
    crate::align::lemma_round_up(
        elements_at(num_workers) + NODE_SIZE * num_slabs,
        SLAB_META_ALIGN as int,
    );
    crate::align::lemma_round_up(stacks_end(num_workers, slab_size, num_slabs), slab_size);
}

/// The layout records where the parts start, as long as 32 bits can say so.
pub proof fn law_layout_recorded(num_workers: int, slab_size: int, num_slabs: u32)
    requires
        0 <= num_workers,
        0 < slab_size,
        slab_size / 256 <= u16::MAX,
        slabs_at(num_workers, slab_size, num_slabs as int) <= u32::MAX,
    ensures
        ({
            let layout = layout_spec(num_workers, slab_size, num_slabs);
            let stacks = layout.slab_free_stacks_offset;
            &&& layout.num_slabs == num_slabs
            &&& layout.free_list_elements_offset == 128 + 64 * num_workers
            &&& layout.slab_shared_meta_offset % 64 == 0
            &&& 128 + 64 * num_workers + 12 * num_slabs <= layout.slab_shared_meta_offset < 192 + 64
                * num_workers + 12 * num_slabs
            &&& stacks == layout.slab_shared_meta_offset + 128 * num_slabs
            &&& layout.slabs_offset as int % slab_size == 0
            &&& stacks + (4 + 2 * (slab_size / 256)) * num_slabs <= layout.slabs_offset < stacks + (4
                + 2 * (slab_size / 256)) * num_slabs + slab_size
        }),
{
    law_layout_tight(num_workers, slab_size, num_slabs as int);
    lemma_mul_nonnegative(4 + 2 * (slab_size / 256), num_slabs as int);
}

/// The metadata without workers grows with the number of slabs.
proof fn lemma_slabs_at_grows(slab_size: int, fewer: int, more: int)
    requires
        0 <= fewer <= more,
        0 < slab_size,
    ensures
        0 <= slabs_at(0, slab_size, fewer) <= slabs_at(0, slab_size, more),
{
    lemma_stacks_end_grows(slab_size, fewer, more);
    law_layout_ordered(0, slab_size, fewer);
    let less = stacks_end(0, slab_size, fewer) + slab_size - 1;
    let full = stacks_end(0, slab_size, more) + slab_size - 1;
    lemma_div_is_ordered(less, full, slab_size);
    lemma_mul_inequality(less / slab_size, full / slab_size, slab_size);
}

/// So many slabs of a region suffice for metadata: for that of as many slabs as there can be
/// beside it, and for as many workers as are asked for.
pub open spec fn suffices(total: int, slab_size: int, min_workers: int, meta_slabs: int) -> bool {
    &&& 1 <= meta_slabs < total
    &&& slabs_at(0, slab_size, total - 1) <= meta_slabs * slab_size
    &&& slabs_at(0, slab_size, total - meta_slabs) + 64 * min_workers <= meta_slabs * slab_size
}

/// The division reached from a number of slabs that holds the metadata without workers.
proof fn lemma_limits_from(total: int, slab_size: int, min_workers: int, meta_slabs: int)
    requires
        0 < slab_size <= u32::MAX,
        0 < total <= u32::MAX,
        total * slab_size <= 0x40_0000_0000 || min_workers <= 0x2000_0000 && meta_slabs * slab_size
            <= 0x20_0000_0000,
        slabs_at(0, slab_size, total) <= u32::MAX,
        1 <= meta_slabs,
        slabs_at(0, slab_size, total - 1) <= meta_slabs * slab_size,
    ensures
        match worker_limits(total, slab_size, min_workers, meta_slabs) {
            Some(l) => {
                &&& meta_slabs <= l.meta_slabs
                &&& suffices(total, slab_size, min_workers, l.meta_slabs as int)
                &&& l.usable_slabs == total - l.meta_slabs
                &&& l.max_workers == (l.meta_slabs * slab_size - slabs_at(
                    0,
                    slab_size,
                    l.usable_slabs as int,
                )) / 64
                &&& forall|m: int|
                    meta_slabs <= m < l.meta_slabs ==> !#[trigger] suffices(
                        total,
                        slab_size,
                        min_workers,
                        m,
                    )
            },
            None => forall|m: int|
                meta_slabs <= m ==> !#[trigger] suffices(total, slab_size, min_workers, m),
        },
    decreases (if total > meta_slabs { total - meta_slabs } else { 0 }),
{
    if meta_slabs < total {
        let usable = total - meta_slabs;
        let base = slabs_at(0, slab_size, usable);
        lemma_slabs_at_grows(slab_size, usable, total - 1);
        lemma_slabs_at_grows(slab_size, usable, total);
        assert(base == base_meta_bytes(slab_size, usable));
        lemma_round_up_le(base, meta_slabs, slab_size);
        let needed = needed_meta_slabs(slab_size, usable);
        lemma_fundamental_div_mod(base + slab_size - 1, slab_size);
        lemma_mul_is_commutative(needed, slab_size);
        if needed > meta_slabs {
            lemma_mul_inequality(meta_slabs + 1, needed, slab_size);
            lemma_mul_is_distributive_add_other_way(slab_size, meta_slabs, 1);
        }
        lemma_mul_inequality(meta_slabs, total - 1, slab_size);
        lemma_mul_is_distributive_sub_other_way(slab_size, total, 1);
        let slack = meta_slabs * slab_size - base;
        assert(0 <= slack / 64 <= u32::MAX);
        if workers_in_slack(slab_size, meta_slabs, usable) < min_workers {
            lemma_mul_is_distributive_add_other_way(slab_size, meta_slabs, 1);
            lemma_limits_from(total, slab_size, min_workers, meta_slabs + 1);
        }
    }
}

/// As few slabs as suffice are set aside for metadata, all the others are usable, and as many
/// workers are granted as there is room for; there is no division only where no number of slabs
/// suffices. Holds while offsets and numbers of workers are within 32 bits.
pub proof fn law_limits_least(file_size: int, slab_size: int, min_workers: int)
    requires
        0 < slab_size <= u32::MAX,
        0 <= file_size,
        file_size <= 0x40_0000_0000 || min_workers <= 0x2000_0000,
        file_size / slab_size <= u32::MAX,
        slabs_at(0, slab_size, file_size / slab_size) <= u32::MAX,
    ensures
        ({
            let total = file_size / slab_size;
            match max_workers_spec(file_size, slab_size, min_workers) {
                Some(l) => {
                    &&& suffices(total, slab_size, min_workers, l.meta_slabs as int)
                    &&& forall|m: int|
                        m < l.meta_slabs ==> !#[trigger] suffices(total, slab_size, min_workers, m)
                    &&& l.usable_slabs == total - l.meta_slabs
                    &&& l.max_workers == (l.meta_slabs * slab_size - slabs_at(
                        0,
                        slab_size,
                        l.usable_slabs as int,
                    )) / 64
                },
                None => forall|m: int| !#[trigger] suffices(total, slab_size, min_workers, m),
            }
        }),
{
    let total = file_size / slab_size;
    lemma_div_pos_is_pos(file_size, slab_size);
    lemma_fundamental_div_mod(file_size, slab_size);
    lemma_mod_bound(file_size, slab_size);
    lemma_mul_is_commutative(slab_size, total);
    assert(total_slabs(file_size, slab_size) == total);
    if total > 1 {
        let base = slabs_at(0, slab_size, total - 1);
        lemma_slabs_at_grows(slab_size, total - 1, total);
        law_layout_ordered(0, slab_size, total - 1);
        assert(base == base_meta_bytes(slab_size, total - 1));
        let needed = needed_meta_slabs(slab_size, total - 1);
        lemma_ceil_le(base, slab_size);
        lemma_fundamental_div_mod(base, slab_size);
        lemma_mul_is_commutative(slab_size, base / slab_size);
        lemma_round_up_le(base, base / slab_size, slab_size);
        if needed > base / slab_size {
            lemma_mul_inequality(base / slab_size + 1, needed, slab_size);
            lemma_mul_is_distributive_add_other_way(slab_size, base / slab_size, 1);
        }
        let first = if needed > 1 {
            needed
        } else {
            1
        };
        lemma_mul_inequality(needed, first, slab_size);
        lemma_limits_from(total, slab_size, min_workers, first);
        assert forall|m: int| m < first implies !#[trigger] suffices(
            total,
            slab_size,
            min_workers,
            m,
        ) by {
            if 1 <= m {
                lemma_mul_inequality(m, needed - 1, slab_size);
                lemma_mul_is_distributive_sub_other_way(slab_size, needed, 1);
            }
        }
    }
}

/// No more slabs go to metadata than hold that of all other slabs and of the workers asked for,
/// and one more; and a division is refused only if these would be all there are.
pub proof fn law_limits_frugal(file_size: int, slab_size: int, min_workers: int)
    requires
        0 < slab_size <= u32::MAX,
        0 <= min_workers,
        0 <= file_size,
        file_size <= 0x40_0000_0000 || min_workers <= 0x2000_0000,
        1 <= file_size / slab_size <= u32::MAX,
        slabs_at(0, slab_size, file_size / slab_size) <= u32::MAX,
    ensures
        ({
            let total = file_size / slab_size;
            let bound = slabs_at(min_workers, slab_size, total - 1) / slab_size + 1;
            match max_workers_spec(file_size, slab_size, min_workers) {
                Some(l) => l.meta_slabs <= bound,
                None => bound >= total,
            }
        }),
{
    let total = file_size / slab_size;
    let with = slabs_at(min_workers, slab_size, total - 1);
    let bound = with / slab_size + 1;
    law_limits_least(file_size, slab_size, min_workers);
    law_layout_ordered(0, slab_size, total - 1);
    law_layout_ordered(min_workers, slab_size, total - 1);
    lemma_workers_shift(min_workers, slab_size, total - 1);
    lemma_fewer_workers(min_workers, slab_size, total - 1);
    crate::align::lemma_round_up(stacks_end(0, slab_size, total - 1), slab_size);
    crate::align::lemma_round_up(stacks_end(min_workers, slab_size, total - 1), slab_size);
    lemma_fundamental_div_mod(with, slab_size);
    lemma_div_pos_is_pos(with, slab_size);
    lemma_mul_is_commutative(slab_size, with / slab_size);
    lemma_mul_is_distributive_add_other_way(slab_size, with / slab_size, 1);
    if bound < total {
        lemma_slabs_at_grows(slab_size, total - bound, total - 1);
        assert(suffices(total, slab_size, min_workers, bound));
    }
}

/// How many workers and slabs a region of `file_size` bytes can have, with at least
/// `min_workers` workers; `None` if there is no room for that.
pub fn max_workers(file_size: usize, slab_size: u32, min_workers: u32) -> (limits: Option<
    WorkerLimits,
>)
    requires
        slab_size != 0 && total_slabs(file_size as int, slab_size as int) > 1 ==> is_pow2(
            slab_size as int,
        ) && layout_fits(
            0,
            slab_size as int,
            total_slabs(file_size as int, slab_size as int) as int,
        ),
    ensures
        limits == max_workers_spec(file_size as int, slab_size as int, min_workers as int),
{
    if slab_size == 0 {
        return None;
    }
    let slab_size_usize = slab_size as usize;
    let total_slabs = (file_size / slab_size_usize) as u32;
    if total_slabs == 0 {
        return None;
    }
    let ghost size = slab_size as int;
    let mut meta_slabs: u32 = 1;
    proof {
        lemma_fundamental_div_mod(file_size as int, size);
        let q = file_size as int / size;
        lemma_div_nonincreasing(file_size as int, size);
        lemma_small_mod_u32(q);
        lemma_mul_inequality(total_slabs as int, q, size);
        lemma_mul_is_commutative(q, size);
    }
    loop
        invariant
            slab_size == slab_size_usize == size,
            size > 0,
            total_slabs > 1 ==> is_pow2(size) && layout_fits(0, size, total_slabs as int),
            meta_slabs >= 1,
            total_slabs as int * size <= file_size,
            worker_limits(total_slabs as int, size, min_workers as int, 1) == worker_limits(
                total_slabs as int,
                size,
                min_workers as int,
                meta_slabs as int,
            ),
            max_workers_spec(file_size as int, slab_size as int, min_workers as int)
                == worker_limits(total_slabs as int, size, min_workers as int, 1),
        decreases (if total_slabs > meta_slabs { total_slabs - meta_slabs } else { 0 }),
    {
        let usable_slabs = match total_slabs.checked_sub(meta_slabs) {
            Some(usable_slabs) => usable_slabs,
            None => {
                return None;
            },
        };
        if usable_slabs == 0 {
            return None;
        }
        proof {
            lemma_stacks_end_grows(size, usable_slabs as int, total_slabs as int);
        }
        let base_layout = layout_for(0, slab_size, usable_slabs);
        let base_meta_bytes = base_layout.slabs_offset as usize;
        proof {
            lemma_ceil_le(base_meta_bytes as int, size);
        }
        let needed_meta_slabs = div_ceil(base_meta_bytes, slab_size_usize) as u32;
        if needed_meta_slabs > meta_slabs {
            meta_slabs = needed_meta_slabs;
            continue;
        }
        proof {
            lemma_mul_inequality(meta_slabs as int, total_slabs as int, size);
            lemma_mul_inequality(needed_meta_slabs as int, meta_slabs as int, size);
            lemma_mul_is_commutative(needed_meta_slabs as int, size);
        }
        let slack_bytes = meta_slabs as usize * slab_size_usize - base_meta_bytes;
        let max_workers = (slack_bytes / WORKER_HEADS_SIZE) as u32;
        if max_workers < min_workers {
            meta_slabs = meta_slabs.saturating_add(1);
            continue;
        }
        return Some(WorkerLimits { meta_slabs, usable_slabs, max_workers });
    }
}

proof fn lemma_small_mod_u32(q: int)
    requires
        0 <= q,
    ensures
        (q as u32) <= q,
{
    if q < 0x1_0000_0000 {
        assert(q as u32 == q);
    }
}

/// Rounding up to a multiple takes no more multiples than there are bytes.
proof fn lemma_ceil_le(value: int, size: int)
    requires
        0 <= value,
        0 < size,
    ensures
        0 <= (value + size - 1) / size <= value,
        value <= (value + size - 1) / size * size,
{
    let q = (value + size - 1) / size;
    lemma_fundamental_div_mod(value + size - 1, size);
    lemma_mul_is_commutative(q, size);
    lemma_div_pos_is_pos(value + size - 1, size);
    if q > value {
        lemma_mul_inequality(value + 1, q, size);
        lemma_mul_is_distributive_add_other_way(size, value, 1);
        lemma_mul_inequality(1, size, value);
        lemma_mul_is_commutative(value, size);
    }
}

/// Division that rounds up.
fn div_ceil(value: usize, size: usize) -> (quotient: usize)
    requires
        size > 0,
    ensures
        quotient == (value + size - 1) / size as int,
{
    let ghost q = value as int / size as int;
    let ghost r = value as int % size as int;
    proof {
        lemma_fundamental_div_mod(value as int, size as int);
        lemma_div_nonincreasing(value as int, size as int);
        lemma_mul_is_commutative(q, size as int);
        if r == 0 {
            lemma_fundamental_div_mod_converse(value + size - 1, size as int, q, size - 1);
        } else {
            lemma_mul_is_distributive_add_other_way(size as int, q, 1);
            lemma_fundamental_div_mod_converse(value + size - 1, size as int, q + 1, r - 1);
            lemma_ceil_le(value as int, size as int);
        }
    }
    if value % size == 0 {
        value / size
    } else {
        value / size + 1
    }
}

/// Where the slabs start, in full.
pub(crate) fn slabs_start(num_workers: u32, slab_size: u32, num_slabs: u32) -> (offset: usize)
    requires
        is_pow2(slab_size as int),
        slab_size > 0,
        layout_fits(num_workers as int, slab_size as int, num_slabs as int),
    ensures
        offset == slabs_at(num_workers as int, slab_size as int, num_slabs as int),
{
    proof {
        law_layout_ordered(num_workers as int, slab_size as int, num_slabs as int);
    }
    let mut offset: usize = header_size();
    offset = offset + worker_local_list_heads_size(num_workers);
    offset = pad_for_free_list_elements(offset);
    offset = offset + free_list_elements_size(num_slabs);
    offset = pad_for_slab_meta(offset);
    offset = offset + slab_meta_size(num_slabs);
    offset = pad_for_slab_free_stacks(offset);
    offset = offset + free_stacks_size(num_slabs, slab_size);
    pad_for_slabs(offset, slab_size)
}

fn layout_for(num_workers: u32, slab_size: u32, num_slabs: u32) -> (layout: AllocatorLayout)
    requires
        is_pow2(slab_size as int),
        slab_size > 0,
        layout_fits(num_workers as int, slab_size as int, num_slabs as int),
    ensures
        layout == layout_spec(num_workers as int, slab_size as int, num_slabs),
{
    proof {
        law_layout_ordered(num_workers as int, slab_size as int, num_slabs as int);
    }
    let mut offset: usize = header_size();
    offset = offset + worker_local_list_heads_size(num_workers);
    offset = pad_for_free_list_elements(offset);
    let free_list_elements_offset = offset as u32;
    offset = offset + free_list_elements_size(num_slabs);
    offset = pad_for_slab_meta(offset);
    let slab_shared_meta_offset = offset as u32;
    offset = offset + slab_meta_size(num_slabs);
    offset = pad_for_slab_free_stacks(offset);
    let slab_free_stacks_offset = offset as u32;
    offset = offset + free_stacks_size(num_slabs, slab_size);
    let slabs_offset = pad_for_slabs(offset, slab_size) as u32;
    AllocatorLayout {
        num_slabs,
        free_list_elements_offset,
        slab_shared_meta_offset,
        slab_free_stacks_offset,
        slabs_offset,
    }
}

/// The layout for the given numbers of workers and slabs.
pub fn layout_for_num_slabs(num_workers: u32, slab_size: u32, num_slabs: u32) -> (layout:
    AllocatorLayout)
    requires
        is_pow2(slab_size as int),
        slab_size > 0,
        layout_fits(num_workers as int, slab_size as int, num_slabs as int),
    ensures
        layout == layout_spec(num_workers as int, slab_size as int, num_slabs),
{
    layout_for(num_workers, slab_size, num_slabs)
}

/// The size of the header in bytes.
pub fn header_size() -> (size: usize)
    ensures
        size == HEADER_SIZE,
{
    HEADER_SIZE
}

/// The size of the worker local list heads in bytes.
pub fn worker_local_list_heads_size(num_workers: u32) -> (size: usize)
    requires
        WORKER_HEADS_SIZE * num_workers <= usize::MAX,
    ensures
        size == WORKER_HEADS_SIZE * num_workers,
{
    WORKER_HEADS_SIZE * num_workers as usize
}

/// Update offset to pad for free list elements.
pub fn pad_for_free_list_elements(offset: usize) -> (padded: usize)
    requires
        offset + NODE_ALIGN <= usize::MAX,
    ensures
        padded == round_up(offset as int, NODE_ALIGN as int),
{
    proof {
        lemma_alignments();
    }
    round_to_next_alignment_of::<NODE_ALIGN>(offset)
}

/// The size of the free list elements in bytes.
pub fn free_list_elements_size(num_slabs: u32) -> (size: usize)
    requires
        NODE_SIZE * num_slabs <= usize::MAX,
    ensures
        size == NODE_SIZE * num_slabs,
{
    NODE_SIZE * num_slabs as usize
}

/// Update offset to pad for slab shared metadata.
pub fn pad_for_slab_meta(offset: usize) -> (padded: usize)
    requires
        offset + SLAB_META_ALIGN <= usize::MAX,
    ensures
        padded == round_up(offset as int, SLAB_META_ALIGN as int),
{
    proof {
        lemma_alignments();
    }
    round_to_next_alignment_of::<SLAB_META_ALIGN>(offset)
}

/// The size of the slab meta in bytes with trailing padding.
pub fn slab_meta_size(num_slabs: u32) -> (size: usize)
    requires
        SLAB_META_SIZE * num_slabs <= usize::MAX,
    ensures
        size == SLAB_META_SIZE * num_slabs,
{
    SLAB_META_SIZE * num_slabs as usize
}

/// Update offset to pad for slab free stacks.
pub fn pad_for_slab_free_stacks(offset: usize) -> (padded: usize)
    requires
        offset + FREE_STACK_ALIGN <= usize::MAX,
    ensures
        padded == round_up(offset as int, FREE_STACK_ALIGN as int),
{
    proof {
        lemma_alignments();
    }
    round_to_next_alignment_of::<FREE_STACK_ALIGN>(offset)
}

/// The size of an individual free stack in bytes.
pub fn single_free_stack_size(slab_size: u32) -> (size: usize)
    ensures
        size == free_stack_bytes(slab_size as int),
{
    let max_capacity = slab_size / MIN_SIZE;
    FreeStack::byte_size(max_capacity as u16)
}

/// The size of the free stacks in bytes WITHOUT trailing padding.
pub fn free_stacks_size(num_slabs: u32, slab_size: u32) -> (size: usize)
    requires
        free_stack_bytes(slab_size as int) * num_slabs <= usize::MAX,
    ensures
        size == free_stack_bytes(slab_size as int) * num_slabs,
{
    single_free_stack_size(slab_size) * num_slabs as usize
}

/// Update offset to the next multiple of `slab_size`.
pub fn pad_for_slabs(offset: usize, slab_size: u32) -> (padded: usize)
    requires
        is_pow2(slab_size as int),
        slab_size > 0,
        offset + slab_size <= usize::MAX,
    ensures
        padded == round_up(offset as int, slab_size as int),
{
    let slab_size = slab_size as usize;
    proof {
        crate::align::lemma_mask(
            (offset + slab_size - 1) as usize,
            slab_size,
            (slab_size - 1) as usize,
        );
    }
    (offset + slab_size - 1) & !(slab_size - 1)
}

proof fn lemma_alignments()
    ensures
        is_pow2(NODE_ALIGN as int),
        is_pow2(SLAB_META_ALIGN as int),
        is_pow2(FREE_STACK_ALIGN as int),
{
    vstd::arithmetic::power2::lemma2_to64();
    assert(vstd::arithmetic::power2::pow2(2) == NODE_ALIGN);
    assert(vstd::arithmetic::power2::pow2(6) == SLAB_META_ALIGN);
    assert(vstd::arithmetic::power2::pow2(3) == FREE_STACK_ALIGN);
}

/// The offsets stay within the range of `usize` exactly if the free stacks end, with room for the
/// padding behind them, within it.
pub proof fn law_layout_fits(num_workers: int, slab_size: int, num_slabs: int)
    ensures
        layout_fits(num_workers, slab_size, num_slabs) <==> stacks_at(num_workers, num_slabs)
            + free_stack_bytes(slab_size) * num_slabs + slab_size + 64 <= usize::MAX,
{
}

} // verus!
