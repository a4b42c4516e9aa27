//! The free slots of a slab.
use crate::memory::{load_u16, same_outside, store_u16, u16_at};
use vstd::prelude::*;

verus! {

/// A simple stack that allows pushing and popping of indices.
/// Used by a worker to track free slots within a slab that it owns.
///
/// The stack is an array of `u16` indices in the region. It should only be
/// accessed by a single thread at a time.
#[derive(Clone, Copy)]
pub struct FreeStack {
    /// The offset of the current number of items in the stack - i.e. the top index.
    pub top: usize,
    /// The offset of the current capacity of the stack.
    pub capacity: usize,
    /// The offset of the array of `u16` indices.
    pub stack: usize,
}

impl FreeStack {
    /// The words and an array of `room` indices lie in a region of `size` bytes, apart from
    /// each other.
    pub open spec fn fits(self, size: int, room: int) -> bool {
        &&& 0 <= room
        &&& size <= usize::MAX
        &&& self.top + 2 <= size
        &&& self.capacity + 2 <= size
        &&& self.stack + 2 * room <= size
        &&& self.top + 2 <= self.capacity || self.capacity + 2 <= self.top
        &&& self.top + 2 <= self.stack || self.stack + 2 * room <= self.top
        &&& self.capacity + 2 <= self.stack || self.stack + 2 * room <= self.capacity
    }

    /// The number of items.
    pub open spec fn top_value(self, mem: Seq<u8>) -> u16 {
        u16_at(mem, self.top as int)
    }

    /// The number of items with which the stack is full.
    pub open spec fn capacity_value(self, mem: Seq<u8>) -> u16 {
        u16_at(mem, self.capacity as int)
    }

    /// The index at a place of the array.
    pub open spec fn item(self, mem: Seq<u8>, place: int) -> u16 {
        u16_at(mem, self.stack + 2 * place)
    }

    /// The items, from the bottom of the stack to its top.
    pub open spec fn contents(self, mem: Seq<u8>) -> Seq<u16> {
        Seq::new(self.top_value(mem) as nat, |i: int| self.item(mem, i))
    }

    /// Nothing differs but the two words and the first `room` indices.
    pub open spec fn only_stack(self, a: Seq<u8>, b: Seq<u8>, room: int) -> bool {
        &&& a.len() == b.len()
        &&& forall|i: int|
            0 <= i < a.len() && !(self.top <= i < self.top + 2) && !(self.capacity <= i
                < self.capacity + 2) && !(self.stack <= i < self.stack + 2 * room)
                ==> #[trigger] b[i] == a[i]
    }

    /// Creates a new free stack.
    pub fn new(top: usize, capacity: usize, stack: usize) -> (result: Self)
        ensures
            result.top == top,
            result.capacity == capacity,
            result.stack == stack,
    {
        FreeStack { top, capacity, stack }
    }

    /// Returns the size in bytes of a `FreeStack` with the given `capacity`.
    pub fn byte_size(capacity: u16) -> (size: usize)
        ensures
            size == 4 + 2 * capacity,
    {
        4 + 2 * capacity as usize
    }

    /// Sets up the free stack with all items free, the lowest on top.
    pub fn reset(&self, mem: &mut [u8], capacity: u16)
        requires
            self.fits(old(mem)@.len() as int, capacity as int),
        ensures
            self.contents(final(mem)@) == Seq::new(
                capacity as nat,
                |i: int| (capacity - i - 1) as u16,
            ),
            self.capacity_value(final(mem)@) == capacity,
            self.only_stack(old(mem)@, final(mem)@, capacity as int),
    {
        let ghost m0 = mem@;
        store_u16(mem, self.top, capacity);
        let ghost m1 = mem@;
        store_u16(mem, self.capacity, capacity);
        proof {
            crate::memory::lemma_word_same(m1, mem@, self.top as int, 2);
        }
        // The stack holds the slots in reverse sequential order.
        let mut index: u16 = 0;
        while index < capacity
            invariant
                0 <= index <= capacity,
                self.fits(mem@.len() as int, capacity as int),
                self.top_value(mem@) == capacity,
                self.capacity_value(mem@) == capacity,
                forall|i: int| 0 <= i < index ==> #[trigger] self.item(mem@, i) == capacity - i - 1,
                self.only_stack(m0, mem@, capacity as int),
            decreases capacity - index,
        {
            let ghost before = mem@;
            store_u16(mem, self.stack + 2 * index as usize, capacity - index - 1);
            proof {
                let at = self.stack + 2 * index;
                crate::memory::lemma_frame(before, mem@, at, at + 2);
                assert forall|i: int| 0 <= i < index + 1 implies #[trigger] self.item(mem@, i)
                    == capacity - i - 1 by {
                    if i < index {
                        assert(self.item(before, i) == capacity - i - 1);
                    }
                }
            }
            index = index + 1;
        }
        assert(self.contents(mem@) =~= Seq::new(
            capacity as nat,
            |i: int| (capacity - i - 1) as u16,
        ));
    }

    /// Pops an item from the free stack.
    /// Returns `None` if the stack is empty.
    pub fn pop(&self, mem: &mut [u8]) -> (popped: Option<u16>)
        requires
            self.fits(old(mem)@.len() as int, self.contents(old(mem)@).len() as int),
        ensures
            popped is None <==> self.contents(old(mem)@).len() == 0,
            popped is None ==> final(mem)@ == old(mem)@,
            popped matches Some(item) ==> item == self.contents(old(mem)@).last() && self.contents(
                final(mem)@,
            ) == self.contents(old(mem)@).drop_last(),
            self.capacity_value(final(mem)@) == self.capacity_value(old(mem)@),
            same_outside(old(mem)@, final(mem)@, self.top as int, self.top + 2),
    {
        let top = load_u16(mem, self.top);
        if top == 0 {
            return None;
        }
        let new_top = top - 1;
        // Read the value at the top of the stack.
        let popped_value = load_u16(mem, self.stack + 2 * new_top as usize);
        // Update the top of the stack.
        let ghost before = mem@;
        store_u16(mem, self.top, new_top);
        proof {
            crate::memory::lemma_frame(before, mem@, self.top as int, self.top + 2);
            assert(self.contents(mem@) =~= self.contents(before).drop_last());
        }
        Some(popped_value)
    }

    /// Pushes an item onto the free stack, which must not be full.
    pub fn push(&self, mem: &mut [u8], item: u16)
        requires
            self.contents(old(mem)@).len() < self.capacity_value(old(mem)@),
            self.fits(old(mem)@.len() as int, (self.contents(old(mem)@).len() + 1) as int),
        ensures
            self.contents(final(mem)@) == self.contents(old(mem)@).push(item),
            self.capacity_value(final(mem)@) == self.capacity_value(old(mem)@),
            self.only_stack(old(mem)@, final(mem)@, (self.contents(old(mem)@).len() + 1) as int),
    {
        let top = load_u16(mem, self.top);
        let ghost m0 = mem@;
        store_u16(mem, self.stack + 2 * top as usize, item);
        let ghost m1 = mem@;
        store_u16(mem, self.top, top + 1);
        proof {
            let at = self.stack + 2 * top;
            crate::memory::lemma_frame(m0, m1, at, at + 2);
            crate::memory::lemma_frame(m1, mem@, self.top as int, self.top + 2);
            assert(self.contents(mem@) =~= self.contents(m0).push(item));
        }
    }

    /// Returns the current top value - i.e. the size.
    pub fn len(&self, mem: &[u8]) -> (len: u16)
        requires
            self.top + 2 <= mem@.len(),
        ensures
            len == self.contents(mem@).len(),
    {
        load_u16(mem, self.top)
    }

    /// Returns true if the stack is empty.
    pub fn is_empty(&self, mem: &[u8]) -> (empty: bool)
        requires
            self.top + 2 <= mem@.len(),
        ensures
            empty == (self.contents(mem@).len() == 0),
    {
        self.len(mem) == 0
    }

    /// Returns true if the stack is full.
    pub fn is_full(&self, mem: &[u8]) -> (full: bool)
        requires
            self.top + 2 <= mem@.len(),
            self.capacity + 2 <= mem@.len(),
        ensures
            full == (self.contents(mem@).len() == self.capacity_value(mem@)),
    {
        self.len(mem) == load_u16(mem, self.capacity)
    }
}

/// What is pushed is popped first, and the rest of the stack is as before.
pub proof fn law_stack_push_then_pop(stack: Seq<u16>, item: u16)
    ensures
        stack.push(item).last() == item,
        stack.push(item).drop_last() == stack,
{
    assert(stack.push(item).drop_last() =~= stack);
}

} // verus!
