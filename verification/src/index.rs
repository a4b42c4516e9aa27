//! Sentinels that stand for "no element" in the various linked structures.
use vstd::prelude::*;

verus! {

/// No item, where items are `u16` slots within a slab.
pub const NULL_U16: u16 = 0xffff;

/// No slab or no worker, where both are `u32` indexes.
pub const NULL_U32: u32 = 0xffff_ffff;

/// No allocation, where allocations are byte offsets held in 64-bit words.
pub const NULL_U64: u64 = 0xffff_ffff_ffff_ffff;

} // verus!
