//! The slabs that a worker owns.
use crate::header::layout::NODE_SIZE;
use crate::index::NULL_U32;
use crate::linked_list_node::{NodeList, WORKER_LOCAL_NEXT, WORKER_LOCAL_PREV};
use crate::memory::load_u32;
use crate::node_table::NodeTable;
use vstd::prelude::*;

verus! {

/// A doubly linked-list that tracks slabs assigned to a worker.
/// This list should only be accessed by the associated worker.
///
/// `head` is the offset of the head word, `list` says where the nodes lie.
#[derive(Clone, Copy)]
pub struct WorkerLocalList {
    pub head: usize,
    pub list: NodeList,
}

impl WorkerLocalList {
    /// The list as a table of links.
    pub open spec fn table(self) -> NodeTable {
        NodeTable {
            base: self.list.offset,
            stride: NODE_SIZE,
            prev: WORKER_LOCAL_PREV,
            next: WORKER_LOCAL_NEXT,
            len: self.list.len,
        }
    }

    /// Head and nodes lie within a region of `size` bytes, without overlap.
    pub open spec fn wf(self, size: int) -> bool {
        &&& self.list.wf(size)
        &&& self.table().head_apart(size, self.head as int)
    }

    /// Head and nodes form a list.
    pub open spec fn is_list(self, mem: Seq<u8>) -> bool {
        self.table().is_list(mem, self.head as int)
    }

    /// The slabs in the list, in order.
    pub open spec fn contents(self, mem: Seq<u8>) -> Seq<u32> {
        self.table().list(mem, self.head as int)
    }

    /// Nothing differs but the head word and the worker-local links of the given slabs.
    pub open spec fn only_links(self, before: Seq<u8>, after: Seq<u8>, slabs: Set<int>) -> bool {
        self.table().only_links(before, after, self.head as int, slabs)
    }

    /// The slabs in the list, and `slab`, as a set.
    pub open spec fn touched(self, mem: Seq<u8>, slab: u32) -> Set<int> {
        Set::new(
            |i: int|
                i == slab || (0 <= i < self.list.len && self.contents(mem).contains(i as u32)),
        )
    }

    /// Creates a new `WorkerLocalList` with the given `head` and `list`.
    pub fn new(head: usize, list: NodeList) -> (result: Self)
        ensures
            result.head == head,
            result.list == list,
    {
        WorkerLocalList { head, list }
    }

    fn node_table(&self) -> (table: NodeTable)
        ensures
            table == self.table(),
    {
        NodeTable {
            base: self.list.offset,
            stride: NODE_SIZE,
            prev: WORKER_LOCAL_PREV,
            next: WORKER_LOCAL_NEXT,
            len: self.list.len,
        }
    }

    /// Returns the head of the worker local list.
    pub fn head(&self, mem: &[u8]) -> (head: Option<u32>)
        requires
            self.wf(mem@.len() as int),
            self.is_list(mem@),
        ensures
            head == if self.contents(mem@).len() > 0 {
                Some(self.contents(mem@)[0])
            } else {
                None
            },
    {
        let head = load_u32(mem, self.head);
        proof {
            let list = self.contents(mem@);
            if list.len() > 0 {
                assert(list[0] < self.table().nexts(mem@).len());
            }
        }
        if head != NULL_U32 {
            Some(head)
        } else {
            None
        }
    }

    /// Pushes `slab_index` onto the head of the worker local list.
    pub fn push(&self, mem: &mut [u8], slab_index: u32)
        requires
            self.wf(old(mem)@.len() as int),
            self.is_list(old(mem)@),
            slab_index < self.list.len,
            !self.contents(old(mem)@).contains(slab_index),
        ensures
            self.is_list(final(mem)@),
            self.contents(final(mem)@) == seq![slab_index] + self.contents(old(mem)@),
            self.only_links(old(mem)@, final(mem)@, self.touched(old(mem)@, slab_index)),
    {
        let ghost before = mem@;
        self.node_table().push(mem, self.head, slab_index);
        proof {
            assert(self.touched(before, slab_index) =~= Set::new(
                |i: int|
                    i == slab_index || (0 <= i < self.table().len && self.table().list(
                        before,
                        self.head as int,
                    ).contains(i as u32)),
            ));
        }
    }

    /// Remove a slab from the list.
    pub fn remove(&self, mem: &mut [u8], slab_index: u32)
        requires
            self.wf(old(mem)@.len() as int),
            self.is_list(old(mem)@),
            self.contents(old(mem)@).contains(slab_index),
        ensures
            self.is_list(final(mem)@),
            self.contents(final(mem)@) == self.contents(old(mem)@).remove(
                self.contents(old(mem)@).index_of(slab_index),
            ),
            self.list.node(final(mem)@, slab_index as int).worker_local_prev == NULL_U32,
            self.list.node(final(mem)@, slab_index as int).worker_local_next == NULL_U32,
            self.only_links(old(mem)@, final(mem)@, self.touched(old(mem)@, slab_index)),
    {
        let ghost before = mem@;
        proof {
            let list = self.contents(before);
            assert(list[list.index_of(slab_index)] < self.table().nexts(before).len());
        }
        self.node_table().remove(mem, self.head, slab_index);
        proof {
            assert(self.touched(before, slab_index) =~= Set::new(
                |i: int|
                    0 <= i < self.table().len && self.table().list(
                        before,
                        self.head as int,
                    ).contains(i as u32),
            ));
        }
    }

    /// The slabs in the worker local list, from the head on.
    pub fn iterate(&self, mem: &[u8]) -> (slabs: Vec<u32>)
        requires
            self.wf(mem@.len() as int),
            self.is_list(mem@),
        ensures
            slabs@ == self.contents(mem@),
    {
        let first = load_u32(mem, self.head);
        self.node_table().collect(mem, first)
    }
}

/// What is pushed comes first, and removing it restores the list.
pub proof fn law_push_then_remove(list: Seq<u32>, slab: u32)
    requires
        !list.contains(slab),
    ensures
        (seq![slab] + list)[0] == slab,
        (seq![slab] + list).remove((seq![slab] + list).index_of(slab)) == list,
{
    let pushed = seq![slab] + list;
    assert(pushed[0] == slab);
    let k = pushed.index_of(slab);
    assert(pushed.contains(slab));
    if k > 0 {
        assert(pushed[k] == list[k - 1]);
        assert(list.contains(list[k - 1]));
    }
    assert(pushed.remove(0) =~= list);
}

} // verus!
