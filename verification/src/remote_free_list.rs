//! Slots of a slab that other workers have freed.
use crate::index::NULL_U16;
use crate::intrusive::{item_or, Thread};
use crate::memory::{load_u16, same_outside, store_u16, u16_at};
use vstd::prelude::*;

verus! {

/// A shared remote free list for a slab.
/// Intrusive linked list where each element is used as either an
/// element storing data or as a link to the next element.
/// Lock-free and thread/process safe.
#[derive(Clone, Copy)]
pub struct RemoteFreeList {
    /// Size of each element in the slab.
    pub slab_item_size: u32,
    /// How many elements the slab has.
    pub capacity: u16,
    /// The offset of the head of the remote free list.
    pub head: usize,
    /// The offset of the beginning of the slab.
    pub slab: usize,
}

impl RemoteFreeList {
    /// How the list is threaded through the elements of the slab.
    pub open spec fn thread(self) -> Thread {
        Thread {
            base: self.slab as int,
            stride: self.slab_item_size as int,
            width: 2,
            null: NULL_U16 as int,
        }
    }

    /// One past the last byte of the slab.
    pub open spec fn end(self) -> int {
        self.slab + self.capacity * self.slab_item_size
    }

    /// Head and slab lie within a region of `size` bytes, without overlap, and an element
    /// has room for a link.
    pub open spec fn wf(self, size: int) -> bool {
        &&& self.slab_item_size >= 2
        &&& self.end() <= size <= usize::MAX
        &&& self.head + 2 <= size
        &&& self.head + 2 <= self.slab || self.end() <= self.head
    }

    /// Head and elements form a list of elements of the slab.
    pub open spec fn is_list(self, mem: Seq<u8>) -> bool {
        &&& self.thread().threads(mem, u16_at(mem, self.head as int) as int, self.contents(mem))
        &&& forall|i: int|
            0 <= i < self.contents(mem).len() ==> 0 <= #[trigger] self.contents(mem)[i]
                < self.capacity
    }

    /// The elements in the list, in order.
    pub open spec fn contents(self, mem: Seq<u8>) -> Seq<int> {
        self.thread().items(mem, u16_at(mem, self.head as int) as int)
    }

    /// Creates a new remote free list.
    pub fn new(slab_item_size: u32, capacity: u16, head: usize, slab: usize) -> (result: Self)
        ensures
            result == (RemoteFreeList { slab_item_size, capacity, head, slab }),
    {
        RemoteFreeList { slab_item_size, capacity, head, slab }
    }

    proof fn lemma_slot(self, x: int)
        requires
            self.slab_item_size >= 2,
            0 <= x < self.capacity,
        ensures
            self.slab <= self.thread().slot(x),
            0 <= x * self.slab_item_size,
            self.thread().slot(x) + 2 <= self.end(),
    {
        crate::records::lemma_record_within(
            self.slab as int,
            self.slab_item_size as int,
            self.capacity as int,
            x,
            0,
            2,
        );
    }

    proof fn lemma_apart(self, x: int, y: int)
        requires
            self.slab_item_size >= 2,
            x != y,
        ensures
            self.thread().slot(x) + 2 <= self.thread().slot(y) || self.thread().slot(y) + 2
                <= self.thread().slot(x),
    {
        if x < y {
            crate::records::lemma_record_apart(
                self.slab as int,
                self.slab_item_size as int,
                x,
                y,
            );
        } else {
            crate::records::lemma_record_apart(
                self.slab as int,
                self.slab_item_size as int,
                y,
                x,
            );
        }
    }

    fn slot_offset(&self, index: u16, Ghost(size): Ghost<int>) -> (off: usize)
        requires
            self.wf(size),
            index < self.capacity,
        ensures
            off == self.thread().slot(index as int),
            off + 2 <= self.end(),
            self.slab <= off,
    {
        proof {
            self.lemma_slot(index as int);
        }
        self.slab + index as usize * self.slab_item_size as usize
    }

    /// Pushes an item to the remote free list.
    pub fn push(&self, mem: &mut [u8], index: u16)
        requires
            self.wf(old(mem)@.len() as int),
            self.is_list(old(mem)@),
            index < self.capacity,
            !self.contents(old(mem)@).contains(index as int),
        ensures
            self.is_list(final(mem)@),
            self.contents(final(mem)@) == seq![index as int] + self.contents(old(mem)@),
            final(mem)@.len() == old(mem)@.len(),
            forall|i: int|
                0 <= i < old(mem)@.len() && !(self.head <= i < self.head + 2) && !(
                self.thread().slot(index as int) <= i < self.thread().slot(index as int) + 2)
                    ==> #[trigger] final(mem)@[i] == old(mem)@[i],
    {
        let ghost m0 = mem@;
        let ghost list = self.contents(m0);
        let item = self.slot_offset(index, Ghost(mem@.len() as int));
        let current_head = load_u16(mem, self.head);
        store_u16(mem, item, current_head);
        let ghost m1 = mem@;
        store_u16(mem, self.head, index);
        proof {
            let t = self.thread();
            crate::memory::lemma_word_same(m1, mem@, item as int, 2);
            crate::memory::lemma_word_bound(m1, item as int, 2);
            reveal_with_fuel(crate::memory::limit, 3);
            assert forall|y: int| list.contains(y) implies #[trigger] t.next(mem@, y) == t.next(
                m0,
                y,
            ) by {
                let i = choose|i: int| 0 <= i < list.len() && list[i] == y;
                assert(0 <= list[i] < self.capacity);
                self.lemma_slot(y);
                self.lemma_apart(y, index as int);
                crate::memory::lemma_word_same(m0, mem@, t.slot(y), 2);
            }
            t.lemma_push(m0, mem@, current_head as int, list, index as int);
            let list2 = seq![index as int] + list;
            t.lemma_items(mem@, index as int, list2);
            assert forall|i: int| 0 <= i < list2.len() implies 0 <= #[trigger] list2[i]
                < self.capacity by {
                if i > 0 {
                    assert(list2[i] == list[i - 1]);
                }
            }
        }
    }

    /// Drain the remote free list and return the items, from the head on.
    pub fn drain(&self, mem: &mut [u8]) -> (items: Vec<u16>)
        requires
            self.wf(old(mem)@.len() as int),
            self.is_list(old(mem)@),
        ensures
            items@.map_values(|x: u16| x as int) == self.contents(old(mem)@),
            self.is_list(final(mem)@),
            self.contents(final(mem)@) == Seq::<int>::empty(),
            same_outside(old(mem)@, final(mem)@, self.head as int, self.head + 2),
    {
        let ghost m0 = mem@;
        let current = load_u16(mem, self.head);
        let items = self.iterate_from(mem, current);
        store_u16(mem, self.head, NULL_U16);
        proof {
            self.thread().lemma_empty(m0, current as int, self.contents(m0));
            self.thread().lemma_items(mem@, NULL_U16 as int, Seq::empty());
        }
        items
    }

    /// The items of the remote free list, from the head on.
    pub fn iterate(&self, mem: &[u8]) -> (items: Vec<u16>)
        requires
            self.wf(mem@.len() as int),
            self.is_list(mem@),
        ensures
            items@.map_values(|x: u16| x as int) == self.contents(mem@),
    {
        self.iterate_from(mem, load_u16(mem, self.head))
    }

    /// The items of the list starting from a given index.
    fn iterate_from(&self, mem: &[u8], first: u16) -> (items: Vec<u16>)
        requires
            self.wf(mem@.len() as int),
            self.is_list(mem@),
            first == u16_at(mem@, self.head as int),
        ensures
            items@.map_values(|x: u16| x as int) == self.contents(mem@),
    {
        let ghost list = self.contents(mem@);
        let ghost t = self.thread();
        let mut items: Vec<u16> = Vec::new();
        let mut current: u16 = first;
        while current != NULL_U16
            invariant
                self.wf(mem@.len() as int),
                self.is_list(mem@),
                list == self.contents(mem@),
                t == self.thread(),
                items@.len() <= list.len(),
                items@.map_values(|x: u16| x as int) == list.take(items@.len() as int),
                current == item_or(list, items@.len() as int, t.null),
            decreases list.len() - items@.len(),
        {
            let ghost k = items@.len() as int;
            proof {
                assert(0 <= list[k] < self.capacity);
                assert(t.next(mem@, list[k]) == item_or(list, k + 1, t.null));
            }
            items.push(current);
            let item = self.slot_offset(current, Ghost(mem@.len() as int));
            proof {
                crate::memory::lemma_word_bound(mem@, item as int, 2);
                reveal_with_fuel(crate::memory::limit, 3);
            }
            current = load_u16(mem, item);
            assert(items@.map_values(|x: u16| x as int) =~= list.take(items@.len() as int));
        }
        proof {
            if items@.len() < list.len() {
                assert(list[items@.len() as int] != t.null);
            }
            assert(list.take(items@.len() as int) =~= list);
        }
        items
    }
}

} // verus!
