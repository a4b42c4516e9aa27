//! What workers share about a slab.
use crate::memory::{same_outside, store_u32, store_u64, u32_at, u64_at};
use crate::region::{ASSIGNED_WORKER, REMOTE_FREE_STACK_HEAD, SIZE_CLASS_INDEX};
use vstd::prelude::*;

verus! {

/// The offsets of the words that workers share about a slab.
#[derive(Clone, Copy)]
pub struct SlabMeta {
    /// The offset of the worker that owns the slab, or the sentinel.
    pub assigned_worker: usize,
    /// The offset of the index of the class that the slab serves.
    pub size_class_index: usize,
    /// The offset of the head of the slab's own remote free list.
    pub remote_free_stack_head: usize,
}

impl SlabMeta {
    /// The record starts at `offset`.
    pub open spec fn starts_at(self, offset: int) -> bool {
        &&& self.assigned_worker == offset + ASSIGNED_WORKER
        &&& self.size_class_index == offset + SIZE_CLASS_INDEX
        &&& self.remote_free_stack_head == offset + REMOTE_FREE_STACK_HEAD
    }

    /// The record that starts at `offset`.
    pub fn new(offset: usize) -> (meta: Self)
        requires
            offset + 128 <= usize::MAX,
        ensures
            meta.starts_at(offset as int),
    {
        SlabMeta {
            assigned_worker: offset + ASSIGNED_WORKER,
            size_class_index: offset + SIZE_CLASS_INDEX,
            remote_free_stack_head: offset + REMOTE_FREE_STACK_HEAD,
        }
    }

    /// Marks the slab as serving a class for a worker.
    pub fn assign(&self, mem: &mut [u8], worker: u32, size_class_index: usize)
        requires
            self.assigned_worker + 16 <= old(mem)@.len(),
            self.starts_at(self.assigned_worker as int),
        ensures
            u32_at(final(mem)@, self.assigned_worker as int) == worker,
            u64_at(final(mem)@, self.size_class_index as int) == size_class_index,
            same_outside(
                old(mem)@,
                final(mem)@,
                self.assigned_worker as int,
                self.assigned_worker + 16,
            ),
    {
        store_u32(mem, self.assigned_worker, worker);
        let ghost before = mem@;
        store_u64(mem, self.size_class_index, size_class_index as u64);
        proof {
            crate::memory::lemma_word_same(before, mem@, self.assigned_worker as int, 4);
        }
    }
}

} // verus!
