//! Sizes and alignments of the parts of a region, with free stacks whose length has a cache
//! line of its own.
use crate::align::{is_pow2, round_to_next_alignment_of, round_up};
use crate::assigned::free_stack::FreeStack;
use crate::header::layout::{
    HEADER_SIZE, NODE_ALIGN, NODE_SIZE, SLAB_META_ALIGN, SLAB_META_SIZE, WORKER_HEADS_SIZE,
};
use crate::size_classes::MIN_SIZE;
use vstd::prelude::*;

verus! {

/// The alignment of a free stack.
pub const FREE_STACK_ALIGN: usize = 64;

/// Bytes of a free stack that can hold every slot of a slab of the smallest class.
pub open spec fn free_stack_bytes(slab_size: int) -> int {
    64 + 2 * ((slab_size / 256) as u16)
}

/// The size of the header in bytes.
pub fn header_size() -> (size: usize)
    ensures
        size == HEADER_SIZE,
{
    HEADER_SIZE
}

/// The size of the worker local list heads in bytes.
pub fn worker_local_list_heads_size(num_workers: u32) -> (size: usize)
    requires
        WORKER_HEADS_SIZE * num_workers <= usize::MAX,
    ensures
        size == WORKER_HEADS_SIZE * num_workers,
{
    WORKER_HEADS_SIZE * num_workers as usize
}

/// Update offset to pad for free list elements.
pub fn pad_for_free_list_elements(offset: usize) -> (padded: usize)
    requires
        offset + NODE_ALIGN <= usize::MAX,
    ensures
        padded == round_up(offset as int, NODE_ALIGN as int),
{
    crate::header::layout::pad_for_free_list_elements(offset)
}

/// The size of the free list elements in bytes.
pub fn free_list_elements_size(num_slabs: u32) -> (size: usize)
    requires
        NODE_SIZE * num_slabs <= usize::MAX,
    ensures
        size == NODE_SIZE * num_slabs,
{
    NODE_SIZE * num_slabs as usize
}

/// Update offset to pad for slab shared metadata.
pub fn pad_for_slab_meta(offset: usize) -> (padded: usize)
    requires
        offset + SLAB_META_ALIGN <= usize::MAX,
    ensures
        padded == round_up(offset as int, SLAB_META_ALIGN as int),
{
    crate::header::layout::pad_for_slab_meta(offset)
}

/// The size of the slab meta in bytes with trailing padding.
pub fn slab_meta_size(num_slabs: u32) -> (size: usize)
    requires
        SLAB_META_SIZE * num_slabs <= usize::MAX,
    ensures
        size == SLAB_META_SIZE * num_slabs,
{
    SLAB_META_SIZE * num_slabs as usize
}

/// Update offset to pad for slab free stacks.
pub fn pad_for_slab_free_stacks(offset: usize) -> (padded: usize)
    requires
        offset + FREE_STACK_ALIGN <= usize::MAX,
    ensures
        padded == round_up(offset as int, FREE_STACK_ALIGN as int),
{
    proof {
        vstd::arithmetic::power2::lemma2_to64();
        assert(vstd::arithmetic::power2::pow2(6) == FREE_STACK_ALIGN);
    }
    round_to_next_alignment_of::<FREE_STACK_ALIGN>(offset)
}

/// The size of an individual free stack in bytes.
pub fn single_free_stack_size(slab_size: u32) -> (size: usize)
    ensures
        size == free_stack_bytes(slab_size as int),
{
    let max_capacity = slab_size / MIN_SIZE;
    FreeStack::byte_size(max_capacity as u16)
}

/// The size of the free stacks in bytes WITHOUT trailing padding.
pub fn free_stacks_size(num_slabs: u32, slab_size: u32) -> (size: usize)
    requires
        free_stack_bytes(slab_size as int) * num_slabs <= usize::MAX,
    ensures
        size == free_stack_bytes(slab_size as int) * num_slabs,
{
    single_free_stack_size(slab_size) * num_slabs as usize
}

/// Update offset to the next multiple of `slab_size`.
pub fn pad_for_slabs(offset: usize, slab_size: u32) -> (padded: usize)
    requires
        is_pow2(slab_size as int),
        slab_size > 0,
        offset + slab_size <= usize::MAX,
    ensures
        padded == round_up(offset as int, slab_size as int),
{
    crate::header::layout::pad_for_slabs(offset, slab_size)
}

/// A free stack takes 64 bytes and 2 for each 256 bytes of a slab.
pub proof fn law_free_stack_bytes(slab_size: int)
    requires
        0 <= slab_size,
        slab_size / 256 <= u16::MAX,
    ensures
        free_stack_bytes(slab_size) == 64 + 2 * (slab_size / 256),
        FREE_STACK_ALIGN == 64,
        HEADER_SIZE == 128,
        WORKER_HEADS_SIZE == 64,
        NODE_SIZE == 12,
        NODE_ALIGN == 4,
        SLAB_META_SIZE == 128,
        SLAB_META_ALIGN == 64,
{
    vstd::arithmetic::div_mod::lemma_div_pos_is_pos(slab_size, 256);
    assert((slab_size / 256) as u16 == slab_size / 256);
}

} // verus!
