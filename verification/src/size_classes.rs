//! The sizes that allocations are rounded up to.
use vstd::prelude::*;

verus! {

pub const NUM_SIZE_CLASSES: usize = 5;

/// The size classes in bytes, each twice the one before.
pub const SIZE_CLASSES: [u32; 5] = [256, 512, 1024, 2048, 4096];

/// The smallest size class.
pub const MIN_SIZE: u32 = 256;

/// The largest size class, and the largest allocation that can be served.
pub const MAX_SIZE: u32 = 4096;

/// The size in bytes of the class at `index`.
pub open spec fn class_bytes(index: int) -> int {
    if index == 0 {
        256
    } else if index == 1 {
        512
    } else if index == 2 {
        1024
    } else if index == 3 {
        2048
    } else {
        4096
    }
}

/// `index` is the smallest class that holds `size` bytes.
pub open spec fn is_class_for(size: int, index: int) -> bool {
    &&& 0 <= index < NUM_SIZE_CLASSES
    &&& size <= class_bytes(index)
    &&& index > 0 ==> class_bytes(index - 1) < size
}

/// The smallest class that holds `size` bytes, for a size up to the largest class.
pub open spec fn class_of(size: int) -> int {
    if size <= 256 {
        0
    } else if size <= 512 {
        1
    } else if size <= 1024 {
        2
    } else if size <= 2048 {
        3
    } else {
        4
    }
}

/// The class for a given `size`, or `None` if no class is large enough.
pub fn size_class_index(size: u32) -> (index: Option<usize>)
    ensures
        index is None <==> size > MAX_SIZE,
        index matches Some(i) ==> i == class_of(size as int),
{
    if size > MAX_SIZE {
        return None;
    }
    Some(size_class_index_unchecked(size))
}

/// The class for a given `size` that is known not to exceed the largest class.
pub fn size_class_index_unchecked(size: u32) -> (index: usize)
    requires
        size <= MAX_SIZE,
    ensures
        index == class_of(size as int),
{
    let mut index: usize = 0;
    while size_class(index) < size
        invariant
            0 <= index < NUM_SIZE_CLASSES,
            size <= MAX_SIZE,
            index > 0 ==> class_bytes(index - 1) < size,
        decreases NUM_SIZE_CLASSES - index,
    {
        index = index + 1;
    }
    index
}

/// The size in bytes of the class at `index`.
pub fn size_class(index: usize) -> (size: u32)
    requires
        index < NUM_SIZE_CLASSES,
    ensures
        size == class_bytes(index as int),
{
    SIZE_CLASSES[index]
}

/// The size in bytes of the class at an `index` that is known to be in range.
pub fn size_class_unchecked(index: usize) -> (size: u32)
    requires
        index < NUM_SIZE_CLASSES,
    ensures
        size == class_bytes(index as int),
{
    size_class(index)
}

/// Every size up to the largest class has exactly one smallest class that holds it.
pub proof fn law_size_class_unique(size: int, a: int)
    requires
        size <= MAX_SIZE,
    ensures
        is_class_for(size, a) <==> a == class_of(size),
{
}

/// There are five classes, of 256 bytes and each twice the one before.
pub proof fn law_size_classes(index: int)
    requires
        0 <= index < NUM_SIZE_CLASSES,
    ensures
        NUM_SIZE_CLASSES == 5,
        class_bytes(index) == 256 * vstd::arithmetic::power2::pow2(index as nat),
        class_bytes(NUM_SIZE_CLASSES - 1) == MAX_SIZE == 4096,
        class_bytes(0) == MIN_SIZE == 256,
{
    vstd::arithmetic::power2::lemma2_to64();
}

/// A request of up to 4096 bytes is served by a class that holds it, and of the sizes 256, 512,
/// 1024, 2048 and 4096 that do, the class has the smallest.
pub proof fn law_smallest_class(size: int, bytes: int)
    requires
        size <= bytes,
        bytes == 256 || bytes == 512 || bytes == 1024 || bytes == 2048 || bytes == 4096,
    ensures
        0 <= class_of(size) < 5,
        size <= class_bytes(class_of(size)) <= bytes,
{
}

/// A class serves its own size, and rounding to a class never shrinks a request.
pub proof fn law_size_class_round_trip(index: int)
    requires
        0 <= index < NUM_SIZE_CLASSES,
    ensures
        is_class_for(class_bytes(index), index),
        MIN_SIZE <= class_bytes(index) <= MAX_SIZE,
{
}

} // verus!
