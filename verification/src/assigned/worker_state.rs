//! The lists of a worker.
use crate::assigned::region::WORKER_STATE_SIZE;
use crate::index::NULL_U32;
use crate::memory::{load_u32, u32_at};
use crate::size_classes::NUM_SIZE_CLASSES;
use vstd::prelude::*;

verus! {

/// The heads of a worker's lists, one partial and one full list for each class.
#[derive(Clone, Copy, Debug, PartialEq, Eq)]
pub struct WorkerState {
    pub partial_slabs_heads: [u32; 5],
    pub full_slabs_heads: [u32; 5],
}

impl WorkerState {
    /// The state is the one that starts at `offset`.
    pub open spec fn is_at(self, mem: Seq<u8>, offset: int) -> bool {
        &&& forall|c: int|
            0 <= c < 5 ==> #[trigger] self.partial_slabs_heads[c] == u32_at(mem, offset + 4 * c)
        &&& forall|c: int|
            0 <= c < 5 ==> #[trigger] self.full_slabs_heads[c] == u32_at(mem, offset + 20 + 4 * c)
    }

    /// Reads the state that starts at `offset`.
    pub fn read(mem: &[u8], offset: usize) -> (state: Self)
        requires
            offset + WORKER_STATE_SIZE <= mem@.len() <= usize::MAX,
        ensures
            state.is_at(mem@, offset as int),
    {
        WorkerState {
            partial_slabs_heads: [
                load_u32(mem, offset),
                load_u32(mem, offset + 4),
                load_u32(mem, offset + 8),
                load_u32(mem, offset + 12),
                load_u32(mem, offset + 16),
            ],
            full_slabs_heads: [
                load_u32(mem, offset + 20),
                load_u32(mem, offset + 24),
                load_u32(mem, offset + 28),
                load_u32(mem, offset + 32),
                load_u32(mem, offset + 36),
            ],
        }
    }

    /// Get the current head of the partial slabs for the given size index.
    /// Returns `None` if there are no partial slabs for that size index.
    pub fn partial_head(&self, size_index: usize) -> (head: Option<u32>)
        requires
            size_index < NUM_SIZE_CLASSES,
        ensures
            head == if self.partial_slabs_heads[size_index as int] == NULL_U32 {
                None
            } else {
                Some(self.partial_slabs_heads[size_index as int])
            },
    {
        let current_head = self.partial_slabs_heads[size_index];
        if current_head == NULL_U32 {
            None
        } else {
            Some(current_head)
        }
    }
}

/// Where the heads of a worker's lists lie: five for partial lists, and then five for full ones.
pub proof fn law_worker_state(state: WorkerState, mem: Seq<u8>, offset: int, class: int)
    requires
        state.is_at(mem, offset),
        0 <= class < 5,
    ensures
        state.partial_slabs_heads[class] == u32_at(mem, offset + 4 * class),
        state.full_slabs_heads[class] == u32_at(mem, offset + 20 + 4 * class),
{
}

} // verus!
