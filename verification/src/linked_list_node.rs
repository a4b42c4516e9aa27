//! The record that links a slab into the lists of slabs.
use crate::header::layout::NODE_SIZE;
use crate::memory::{load_u32, u32_at};
use crate::records::{record, record_offset};
use vstd::prelude::*;

verus! {

/// Where the words of a node lie within its record.
pub const GLOBAL_NEXT: usize = 0;

pub const WORKER_LOCAL_PREV: usize = 4;

pub const WORKER_LOCAL_NEXT: usize = 8;

/// A node in various linked lists used in the allocator.
/// Each node is associated with a slab index.
/// Since a node is only part of a single linked list at a time,
/// the lists could share one word. Separate words are used for
/// convenience and clarity - without too much additional memory overhead.
#[derive(Clone, Copy, Debug, PartialEq, Eq, Structural)]
pub struct LinkedListNode {
    /// The index of the next node in the global free list.
    pub global_next: u32,
    /// The index of the previous node in a worker's local list.
    pub worker_local_prev: u32,
    /// The index of the next node in a worker's local list.
    pub worker_local_next: u32,
}

/// The nodes of all slabs: `len` records from `offset` on.
#[derive(Clone, Copy, Debug, PartialEq, Eq, Structural)]
pub struct NodeList {
    pub offset: usize,
    pub len: u32,
}

impl NodeList {
    /// The nodes lie within a region of `size` bytes.
    pub open spec fn wf(self, size: int) -> bool {
        self.end() <= size <= usize::MAX
    }

    /// One past the last byte of the nodes.
    pub open spec fn end(self) -> int {
        self.offset + self.len * NODE_SIZE
    }

    /// The node of a slab.
    pub open spec fn node(self, mem: Seq<u8>, slab: int) -> LinkedListNode {
        LinkedListNode {
            global_next: u32_at(
                mem,
                record(self.offset as int, NODE_SIZE as int, slab, GLOBAL_NEXT as int),
            ),
            worker_local_prev: u32_at(
                mem,
                record(self.offset as int, NODE_SIZE as int, slab, WORKER_LOCAL_PREV as int),
            ),
            worker_local_next: u32_at(
                mem,
                record(self.offset as int, NODE_SIZE as int, slab, WORKER_LOCAL_NEXT as int),
            ),
        }
    }

    /// Reads the node of a slab.
    pub fn get(&self, mem: &[u8], slab: u32) -> (node: LinkedListNode)
        requires
            self.wf(mem@.len() as int),
            slab < self.len,
        ensures
            node == self.node(mem@, slab as int),
    {
        proof {
            crate::records::lemma_record_within(
                self.offset as int,
                NODE_SIZE as int,
                self.len as int,
                slab as int,
                0,
                NODE_SIZE as int,
            );
        }
        let at = record_offset(self.offset, NODE_SIZE, slab as usize, 0, Ghost(self.len as int));
        LinkedListNode {
            global_next: load_u32(mem, at + GLOBAL_NEXT),
            worker_local_prev: load_u32(mem, at + WORKER_LOCAL_PREV),
            worker_local_next: load_u32(mem, at + WORKER_LOCAL_NEXT),
        }
    }
}

/// Where the words of a node lie: twelve bytes for each slab.
pub proof fn law_node_words(list: NodeList, mem: Seq<u8>, slab: int)
    ensures
        list.node(mem, slab).global_next == u32_at(mem, list.offset + 12 * slab),
        list.node(mem, slab).worker_local_prev == u32_at(mem, list.offset + 12 * slab + 4),
        list.node(mem, slab).worker_local_next == u32_at(mem, list.offset + 12 * slab + 8),
{
}

} // verus!
