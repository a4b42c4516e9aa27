//! The free slots of a slab, in a stack whose length has a cache line of its own.
use crate::memory::{load_u16, same_outside, store_u16, u16_at};
use vstd::prelude::*;

verus! {

/// Where the array of indices starts, from the start of the stack.
pub const ITEMS: usize = 64;

/// A stack that allows pushing and popping of indices.
///
/// The stack is a trailing array of `u16` indices.
///
/// The stack should only be accessed by a single thread at a time.
#[derive(Clone, Copy)]
pub struct FreeStack {
    /// The offset of the current number of items in the stack - i.e. the top index.
    pub top: usize,
}

impl FreeStack {
    /// The word and an array of `room` indices lie in a region of `size` bytes.
    pub open spec fn fits(self, size: int, room: int) -> bool {
        &&& 0 <= room
        &&& self.top + ITEMS + 2 * room <= size <= usize::MAX
    }

    /// The number of items.
    pub open spec fn top_value(self, mem: Seq<u8>) -> u16 {
        u16_at(mem, self.top as int)
    }

    /// The index at a place of the array.
    pub open spec fn item(self, mem: Seq<u8>, place: int) -> u16 {
        u16_at(mem, self.top + ITEMS + 2 * place)
    }

    /// The items, from the bottom of the stack to its top.
    pub open spec fn contents(self, mem: Seq<u8>) -> Seq<u16> {
        Seq::new(self.top_value(mem) as nat, |i: int| self.item(mem, i))
    }

    /// Returns the size in bytes of a `FreeStack` with the given `capacity`.
    pub fn byte_size(capacity: u16) -> (size: usize)
        ensures
            size == ITEMS + 2 * capacity,
    {
        ITEMS + 2 * capacity as usize
    }

    /// Sets up the free stack with all items free, the lowest on top.
    pub fn reset(&self, mem: &mut [u8], capacity: u16)
        requires
            self.fits(old(mem)@.len() as int, capacity as int),
        ensures
            self.contents(final(mem)@) == Seq::new(
                capacity as nat,
                |i: int| (capacity - i - 1) as u16,
            ),
            same_outside(
                old(mem)@,
                final(mem)@,
                self.top as int,
                self.top + ITEMS + 2 * capacity,
            ),
    {
        let ghost m0 = mem@;
        store_u16(mem, self.top, capacity);
        // The stack holds the slots in reverse sequential order.
        let mut index: u16 = 0;
        while index < capacity
            invariant
                0 <= index <= capacity,
                self.fits(mem@.len() as int, capacity as int),
                self.top_value(mem@) == capacity,
                forall|i: int| 0 <= i < index ==> #[trigger] self.item(mem@, i) == capacity - i - 1,
                same_outside(m0, mem@, self.top as int, self.top + ITEMS + 2 * capacity),
            decreases capacity - index,
        {
            let ghost before = mem@;
            store_u16(mem, self.top + ITEMS + 2 * index as usize, capacity - index - 1);
            proof {
                let at = self.top + ITEMS + 2 * index;
                crate::memory::lemma_frame(before, mem@, at, at + 2);
                assert forall|i: int| 0 <= i < index + 1 implies #[trigger] self.item(mem@, i)
                    == capacity - i - 1 by {
                    if i < index {
                        assert(self.item(before, i) == capacity - i - 1);
                    }
                }
            }
            index = index + 1;
        }
        assert(self.contents(mem@) =~= Seq::new(
            capacity as nat,
            |i: int| (capacity - i - 1) as u16,
        ));
    }

    /// Pops an item from the free stack.
    /// Returns `None` if the stack is empty.
    pub fn pop(&self, mem: &mut [u8]) -> (popped: Option<u16>)
        requires
            self.fits(old(mem)@.len() as int, self.contents(old(mem)@).len() as int),
        ensures
            popped is None <==> self.contents(old(mem)@).len() == 0,
            popped is None ==> final(mem)@ == old(mem)@,
            popped matches Some(item) ==> item == self.contents(old(mem)@).last() && self.contents(
                final(mem)@,
            ) == self.contents(old(mem)@).drop_last(),
            same_outside(old(mem)@, final(mem)@, self.top as int, self.top + 2),
    {
        let top = load_u16(mem, self.top);
        if top == 0 {
            return None;
        }
        let new_top = top - 1;
        // Read the value at the top of the stack.
        let popped_value = load_u16(mem, self.top + ITEMS + 2 * new_top as usize);
        // Update the top of the stack.
        let ghost before = mem@;
        store_u16(mem, self.top, new_top);
        proof {
            crate::memory::lemma_frame(before, mem@, self.top as int, self.top + 2);
            assert(self.contents(mem@) =~= self.contents(before).drop_last());
        }
        Some(popped_value)
    }

    /// Pushes an item onto the free stack, which must not be full.
    pub fn push(&self, mem: &mut [u8], item: u16)
        requires
            self.contents(old(mem)@).len() < u16::MAX,
            self.fits(old(mem)@.len() as int, (self.contents(old(mem)@).len() + 1) as int),
        ensures
            self.contents(final(mem)@) == self.contents(old(mem)@).push(item),
            same_outside(
                old(mem)@,
                final(mem)@,
                self.top as int,
                self.top + ITEMS + 2 * (self.contents(old(mem)@).len() + 1),
            ),
    {
        let top = load_u16(mem, self.top);
        let ghost m0 = mem@;
        store_u16(mem, self.top + ITEMS + 2 * top as usize, item);
        let ghost m1 = mem@;
        store_u16(mem, self.top, top + 1);
        proof {
            let at = self.top + ITEMS + 2 * top;
            crate::memory::lemma_frame(m0, m1, at, at + 2);
            crate::memory::lemma_frame(m1, mem@, self.top as int, self.top + 2);
            assert(self.contents(mem@) =~= self.contents(m0).push(item));
        }
    }

    /// Returns the current top value - i.e. the size.
    pub fn len(&self, mem: &[u8]) -> (len: u16)
        requires
            self.top + 2 <= mem@.len(),
        ensures
            len == self.contents(mem@).len(),
    {
        load_u16(mem, self.top)
    }

    /// Returns true if the stack is empty.
    pub fn is_empty(&self, mem: &[u8]) -> (empty: bool)
        requires
            self.top + 2 <= mem@.len(),
        ensures
            empty == (self.contents(mem@).len() == 0),
    {
        self.len(mem) == 0
    }

    /// Return a value at a specific index, counted from the bottom of the stack.
    pub fn get(&self, mem: &[u8], index: u16) -> (item: u16)
        requires
            index < self.contents(mem@).len(),
            self.fits(mem@.len() as int, self.contents(mem@).len() as int),
        ensures
            item == self.contents(mem@)[index as int],
    {
        load_u16(mem, self.top + ITEMS + 2 * index as usize)
    }
}

} // verus!
