//! The metadata of a slab.
use crate::align::is_pow2;
use crate::assigned::free_stack::FreeStack;
use crate::assigned::region::{
    ASSIGNED, CLASS, NEXT, PREV, REMOTE, SLAB_META_SIZE, STACK,
};
use crate::assigned::remote_free_stack::RemoteFreeStack;
use crate::index::NULL_U32;
use crate::memory::{load_u32, load_u8, same_outside, store_u32, store_u8, u32_at, u8_at};
use crate::region::serves;
use crate::size_classes::{class_bytes, size_class, NUM_SIZE_CLASSES};
use crate::state::all_slots;
use vstd::prelude::*;

verus! {

/// The metadata of a slab, which starts at an offset of the region.
#[derive(Clone, Copy)]
pub struct SlabMeta {
    pub offset: usize,
}

impl SlabMeta {
    /// How many slots of a class a slab has.
    pub fn capacity(slab_size: u32, size_class_index: usize) -> (capacity: u16)
        requires
            size_class_index < NUM_SIZE_CLASSES,
            serves(slab_size as int, size_class_index as int),
        ensures
            capacity == slab_size as int / class_bytes(size_class_index as int),
            capacity >= 1,
    {
        (slab_size / size_class(size_class_index)) as u16
    }

    /// The free slots of the slab.
    pub fn free_stack(&self) -> (stack: FreeStack)
        requires
            self.offset + SLAB_META_SIZE <= usize::MAX,
        ensures
            stack.top == self.offset + STACK,
    {
        FreeStack { top: self.offset + STACK }
    }

    /// The slots of the slab that other workers have freed.
    pub fn remote_free_stack(&self) -> (stack: RemoteFreeStack)
        requires
            self.offset + SLAB_META_SIZE <= usize::MAX,
        ensures
            stack.head == self.offset + REMOTE,
    {
        RemoteFreeStack { head: self.offset + REMOTE }
    }

    /// The worker that owns the slab, or the sentinel.
    pub fn assigned_worker(&self, mem: &[u8]) -> (worker: u32)
        requires
            self.offset + SLAB_META_SIZE <= mem@.len() <= usize::MAX,
        ensures
            worker == u32_at(mem@, self.offset + ASSIGNED),
    {
        load_u32(mem, self.offset + ASSIGNED)
    }

    /// The index of the class that the slab serves.
    pub fn size_class_index(&self, mem: &[u8]) -> (class: usize)
        requires
            self.offset + SLAB_META_SIZE <= mem@.len() <= usize::MAX,
        ensures
            class == u8_at(mem@, self.offset + CLASS),
    {
        load_u8(mem, self.offset + CLASS) as usize
    }

    /// Marks the slab as serving a class for a worker, with all its slots free.
    pub fn assign(&self, mem: &mut [u8], slab_size: u32, worker: u32, size_class_index: usize)
        requires
            is_pow2(slab_size as int),
            size_class_index < NUM_SIZE_CLASSES,
            serves(slab_size as int, size_class_index as int),
            self.offset + SLAB_META_SIZE + 2 * (slab_size / 256) <= old(mem)@.len() <= usize::MAX,
        ensures
            u32_at(final(mem)@, self.offset + ASSIGNED) == worker,
            u8_at(final(mem)@, self.offset + CLASS) == size_class_index,
            u32_at(final(mem)@, self.offset + REMOTE) == NULL_U32,
            u32_at(final(mem)@, self.offset + PREV) == u32_at(old(mem)@, self.offset + PREV),
            u32_at(final(mem)@, self.offset + NEXT) == u32_at(old(mem)@, self.offset + NEXT),
            (FreeStack { top: (self.offset + STACK) as usize }).contents(final(mem)@) == all_slots(
                slab_size as int / class_bytes(size_class_index as int),
            ),
            same_outside(
                old(mem)@,
                final(mem)@,
                self.offset as int,
                self.offset + SLAB_META_SIZE + 2 * (slab_size / 256),
            ),
    {
        let ghost m0 = mem@;
        let capacity = Self::capacity(slab_size, size_class_index);
        proof {
            crate::slots::lemma_slots(slab_size as int, size_class_index as int);
        }
        store_u32(mem, self.offset + ASSIGNED, worker);
        let ghost m1 = mem@;
        store_u8(mem, self.offset + CLASS, size_class_index as u8);
        let ghost m2 = mem@;
        self.remote_free_stack().reset(mem);
        let ghost m3 = mem@;
        self.free_stack().reset(mem, capacity);
        proof {
            let at = self.offset as int;
            crate::memory::lemma_word_same(m1, mem@, at + ASSIGNED, 4);
            crate::memory::lemma_word_same(m2, mem@, at + CLASS, 1);
            crate::memory::lemma_word_same(m3, mem@, at + REMOTE, 4);
            crate::memory::lemma_word_same(m0, mem@, at + PREV, 4);
            crate::memory::lemma_word_same(m0, mem@, at + NEXT, 4);
            assert((FreeStack { top: (self.offset + STACK) as usize }).contents(mem@)
                =~= all_slots(capacity as int));
        }
    }
}

} // verus!
