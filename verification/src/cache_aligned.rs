//! Values that have cache lines of their own.
use vstd::prelude::*;

verus! {

pub type CacheAlignedU16 = CacheAligned<u16>;

pub type CacheAlignedU32 = CacheAligned<u32>;

pub type CacheAlignedU64 = CacheAligned<u64>;

/// A value that starts a cache line of the region, which nothing else shares.
#[derive(Debug, PartialEq, Eq, Structural)]
pub struct CacheAligned<T>(pub T);

impl<T> core::ops::Deref for CacheAligned<T> {
    type Target = T;

    fn deref(&self) -> (inner: &T)
        ensures
            *inner == self.0,
    {
        &self.0
    }
}

} // verus!
