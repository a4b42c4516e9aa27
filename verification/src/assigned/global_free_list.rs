//! The slabs that no worker owns, in a list with one link word for each slab.
use crate::global_free_list::{
    generation_of, index_of, next_generation, pop_attempt, push_attempt, unpack_index,
};
use crate::index::NULL_U32;
use crate::interleave::{Task, Words};
use crate::links::{chain, linked};
use crate::memory::{load_u32, load_u64, same_outside, store_u32, store_u64, u32_at, u64_at};
use crate::records::{column32, record, record_offset};
use vstd::prelude::*;

verus! {

/// A singly linked-list that tracks slabs not assigned to any worker.
/// This list is safe to use concurrently across processes.
///
/// The head is tagged: a generation counter and an index packed into a `u64`. Every push and
/// pop moves the generation on, so that a head that was popped and pushed back does not look
/// unchanged to a worker that read it before.
///
/// `head` is the offset of the head word; `list` that of the links, one word for each of
/// `capacity` slabs.
#[derive(Clone, Copy)]
pub struct GlobalFreeList {
    pub head: usize,
    pub list: usize,
    pub capacity: u32,
}

impl GlobalFreeList {
    /// The offset of the link of a slab.
    pub open spec fn link_of(self, slab: int) -> int {
        record(self.list as int, 4, slab, 0)
    }

    /// The link of each slab.
    pub open spec fn nexts(self, mem: Seq<u8>) -> Seq<u32> {
        column32(mem, self.list as int, 4, 0, self.capacity as nat)
    }

    /// One past the last link.
    pub open spec fn end(self) -> int {
        self.list + self.capacity * 4
    }

    /// Head and links lie within a region of `size` bytes, without overlap.
    pub open spec fn wf(self, size: int) -> bool {
        &&& self.end() <= size <= usize::MAX
        &&& self.head + 8 <= size
        &&& self.head + 8 <= self.list || self.end() <= self.head
    }

    /// Head and links form a list.
    pub open spec fn is_list(self, mem: Seq<u8>) -> bool {
        linked(self.nexts(mem), index_of(u64_at(mem, self.head as int)), self.contents(mem))
    }

    /// The slabs in the list, in order.
    pub open spec fn contents(self, mem: Seq<u8>) -> Seq<u32> {
        chain(self.nexts(mem), index_of(u64_at(mem, self.head as int)))
    }

    /// How often slabs were pushed and popped, modulo the range of the counter.
    pub open spec fn generation(self, mem: Seq<u8>) -> u32 {
        generation_of(u64_at(mem, self.head as int))
    }

    /// Nothing differs but the head word and the links of the slabs from `from` to `to`.
    pub open spec fn only_links(self, a: Seq<u8>, b: Seq<u8>, from: int, to: int) -> bool {
        &&& a.len() == b.len()
        &&& forall|i: int|
            0 <= i < a.len() && !(self.head <= i < self.head + 8) && !(self.link_of(from) <= i
                < self.link_of(to)) ==> #[trigger] b[i] == a[i]
    }

    /// Nothing differs but the head word and the link of `slab`.
    pub open spec fn only_link(self, a: Seq<u8>, b: Seq<u8>, slab: int) -> bool {
        self.only_links(a, b, slab, slab + 1)
    }

    /// Creates a new `GlobalFreeList` with the given `head` and `list`.
    pub fn new(head: usize, list: usize, capacity: u32) -> (result: Self)
        ensures
            result == (GlobalFreeList { head, list, capacity }),
    {
        GlobalFreeList { head, list, capacity }
    }

    /// Clears the head of the global free list. Its generation moves on.
    pub fn clear_head(&self, mem: &mut [u8])
        requires
            self.wf(old(mem)@.len() as int),
        ensures
            self.is_list(final(mem)@),
            self.contents(final(mem)@) == Seq::<u32>::empty(),
            self.generation(final(mem)@) == next_generation(self.generation(old(mem)@)),
            same_outside(old(mem)@, final(mem)@, self.head as int, self.head + 8),
    {
        let current_head = load_u64(mem, self.head);
        let cleared = pop_attempt(current_head, NULL_U32);
        store_u64(mem, self.head, cleared);
        proof {
            crate::global_free_list::law_pack_round_trip(
                next_generation(generation_of(current_head)),
                NULL_U32,
                cleared,
            );
            crate::links::lemma_chain(self.nexts(mem@), NULL_U32, Seq::empty());
        }
    }

    /// Initializes the global free list as full with given `capacity`: the lowest slab comes
    /// first.
    pub fn init_full(&self, mem: &mut [u8], capacity: u32)
        requires
            self.wf(old(mem)@.len() as int),
            capacity <= self.capacity,
        ensures
            self.is_list(final(mem)@),
            self.contents(final(mem)@) == Seq::new(capacity as nat, |i: int| i as u32),
            self.generation(final(mem)@) as int == (self.generation(old(mem)@) + capacity + 1)
                % 0x1_0000_0000,
            self.only_links(old(mem)@, final(mem)@, 0, capacity as int),
    {
        let ghost m0 = mem@;
        self.clear_head(mem);
        let mut slab_index: u32 = capacity;
        assert(self.contents(mem@) =~= Seq::new(
            (capacity - slab_index) as nat,
            |i: int| (slab_index + i) as u32,
        ));
        while slab_index > 0
            invariant
                slab_index <= capacity <= self.capacity,
                self.wf(mem@.len() as int),
                self.is_list(mem@),
                self.contents(mem@) == Seq::new(
                    (capacity - slab_index) as nat,
                    |i: int| (slab_index + i) as u32,
                ),
                self.generation(mem@) as int == (self.generation(m0) + (capacity - slab_index) + 1)
                    % 0x1_0000_0000,
                self.only_links(m0, mem@, 0, capacity as int),
            decreases slab_index,
        {
            let ghost list = self.contents(mem@);
            slab_index = slab_index - 1;
            proof {
                if list.contains(slab_index) {
                    let i = list.index_of(slab_index);
                    assert(list[i] == (slab_index + 1 + i) as u32);
                }
            }
            self.push(mem, slab_index);
            assert(seq![slab_index] + list =~= Seq::new(
                (capacity - slab_index) as nat,
                |i: int| (slab_index + i) as u32,
            ));
        }
        assert(self.contents(mem@) =~= Seq::new(capacity as nat, |i: int| i as u32));
    }

    /// Effect of storing a link and a head.
    proof fn lemma_stores(self, a: Seq<u8>, b: Seq<u8>, slab: int)
        requires
            self.wf(a.len() as int),
            0 <= slab < self.capacity,
            self.only_link(a, b, slab),
        ensures
            self.nexts(b) == self.nexts(a).update(slab, u32_at(b, self.link_of(slab))),
    {
        assert forall|i: int| 0 <= i < self.capacity && i != slab implies #[trigger] self.nexts(
            b,
        )[i] == self.nexts(a)[i] by {
            crate::memory::lemma_word_same(a, b, self.link_of(i), 4);
        }
        assert(self.nexts(b) =~= self.nexts(a).update(slab, u32_at(b, self.link_of(slab))));
    }

    fn link_offset(&self, slab_index: u32, Ghost(size): Ghost<int>) -> (off: usize)
        requires
            self.wf(size),
            slab_index < self.capacity,
        ensures
            off == self.link_of(slab_index as int),
            self.list <= off,
            off + 4 <= self.end(),
    {
        record_offset(self.list, 4, slab_index as usize, 0, Ghost(self.capacity as int))
    }

    /// Pushes `slab_index` onto the head of the global free list.
    pub fn push(&self, mem: &mut [u8], slab_index: u32)
        requires
            self.wf(old(mem)@.len() as int),
            self.is_list(old(mem)@),
            slab_index < self.capacity,
            !self.contents(old(mem)@).contains(slab_index),
        ensures
            self.is_list(final(mem)@),
            self.contents(final(mem)@) == seq![slab_index] + self.contents(old(mem)@),
            self.generation(final(mem)@) == next_generation(self.generation(old(mem)@)),
            self.only_link(old(mem)@, final(mem)@, slab_index as int),
    {
        let ghost m0 = mem@;
        let ghost list = self.contents(m0);
        let link = self.link_offset(slab_index, Ghost(mem@.len() as int));
        let current_head = load_u64(mem, self.head);
        let (next, new_head) = push_attempt(current_head, slab_index);
        store_u32(mem, link, next);
        let ghost m1 = mem@;
        store_u64(mem, self.head, new_head);
        proof {
            self.lemma_stores(m0, mem@, slab_index as int);
            crate::memory::lemma_word_same(m1, mem@, link as int, 4);
            crate::links::lemma_linked_push(self.nexts(m0), next, list, slab_index);
            crate::global_free_list::law_pack_round_trip(
                next_generation(generation_of(current_head)),
                slab_index,
                new_head,
            );
            crate::links::lemma_chain(self.nexts(mem@), slab_index, seq![slab_index] + list);
        }
    }

    /// Pops a slab index from the head of the global free list.
    /// Returns `None` if the list is empty.
    pub fn pop(&self, mem: &mut [u8]) -> (popped: Option<u32>)
        requires
            self.wf(old(mem)@.len() as int),
            self.is_list(old(mem)@),
        ensures
            popped is None <==> self.contents(old(mem)@).len() == 0,
            popped is None ==> final(mem)@ == old(mem)@,
            popped matches Some(slab) ==> {
                &&& slab == self.contents(old(mem)@)[0]
                &&& slab < self.capacity
                &&& self.is_list(final(mem)@)
                &&& self.contents(final(mem)@) == self.contents(old(mem)@).drop_first()
                &&& self.generation(final(mem)@) == next_generation(self.generation(old(mem)@))
                &&& self.nexts(final(mem)@)[slab as int] == NULL_U32
                &&& self.only_link(old(mem)@, final(mem)@, slab as int)
            },
    {
        let ghost m0 = mem@;
        let ghost list = self.contents(m0);
        let current_head = load_u64(mem, self.head);
        let (_, head_index) = unpack_index(current_head);
        proof {
            if list.len() > 0 {
                assert(list[0] < self.nexts(m0).len());
            }
        }
        if head_index == NULL_U32 {
            return None;
        }
        proof {
            crate::links::lemma_linked_pop(self.nexts(m0), head_index, list);
        }
        let link = self.link_offset(head_index, Ghost(mem@.len() as int));
        let next_slab_index = load_u32(mem, link);
        let new_head = pop_attempt(current_head, next_slab_index);
        store_u64(mem, self.head, new_head);
        let ghost m1 = mem@;
        store_u32(mem, link, NULL_U32);
        proof {
            self.lemma_stores(m0, mem@, head_index as int);
            crate::memory::lemma_word_same(m1, mem@, self.head as int, 8);
            crate::global_free_list::law_pack_round_trip(
                next_generation(generation_of(current_head)),
                next_slab_index,
                new_head,
            );
            crate::links::lemma_chain(self.nexts(mem@), next_slab_index, list.drop_first());
        }
        Some(head_index)
    }

    /// The link of a slab.
    pub fn next_of(&self, mem: &[u8], slab_index: u32) -> (next: u32)
        requires
            self.wf(mem@.len() as int),
            slab_index < self.capacity,
        ensures
            next == self.nexts(mem@)[slab_index as int],
    {
        load_u32(mem, self.link_offset(slab_index, Ghost(mem@.len() as int)))
    }

    /// The words that tasks share.
    pub open spec fn words(self, mem: Seq<u8>) -> Words {
        Words { head: u64_at(mem, self.head as int), next: self.nexts(mem) }
    }

    /// Makes the next access of a task.
    pub fn advance(&self, mem: &mut [u8], task: Task) -> (next: Task)
        requires
            self.wf(old(mem)@.len() as int),
            task.names(self.capacity as int),
        ensures
            (self.words(final(mem)@), next) == task.step(self.words(old(mem)@), true),
            match task {
                Task::PushLink { slab, seen } => same_outside(
                    old(mem)@,
                    final(mem)@,
                    self.link_of(slab as int),
                    self.link_of(slab as int) + 4,
                ),
                Task::PopClear { slab } => same_outside(
                    old(mem)@,
                    final(mem)@,
                    self.link_of(slab as int),
                    self.link_of(slab as int) + 4,
                ),
                Task::PushSwap { slab, seen } => same_outside(
                    old(mem)@,
                    final(mem)@,
                    self.head as int,
                    self.head + 8,
                ),
                Task::PopSwap { seen, next } => same_outside(
                    old(mem)@,
                    final(mem)@,
                    self.head as int,
                    self.head + 8,
                ),
                _ => final(mem)@ == old(mem)@,
            },
    {
        let ghost before = mem@;
        match task {
            Task::PushStart { slab } => {
                let seen = load_u64(mem, self.head);
                Task::PushLink { slab, seen }
            },
            Task::PushLink { slab, seen } => {
                let link = self.link_offset(slab, Ghost(mem@.len() as int));
                let (next, _) = push_attempt(seen, slab);
                store_u32(mem, link, next);
                proof {
                    self.lemma_stores(before, mem@, slab as int);
                    crate::memory::lemma_word_same(before, mem@, self.head as int, 8);
                }
                Task::PushSwap { slab, seen }
            },
            Task::PushSwap { slab, seen } => {
                if load_u64(mem, self.head) == seen {
                    let (_, new_head) = push_attempt(seen, slab);
                    store_u64(mem, self.head, new_head);
                    proof {
                        self.lemma_head_store(before, mem@);
                    }
                    Task::Done { popped: None }
                } else {
                    Task::PushStart { slab }
                }
            },
            Task::PopStart => {
                let seen = load_u64(mem, self.head);
                let (_, index) = unpack_index(seen);
                if index == NULL_U32 {
                    Task::Done { popped: None }
                } else {
                    Task::PopRead { seen }
                }
            },
            Task::PopRead { seen } => {
                let (_, index) = unpack_index(seen);
                let next = self.next_of(mem, index);
                Task::PopSwap { seen, next }
            },
            Task::PopSwap { seen, next } => {
                if load_u64(mem, self.head) == seen {
                    let (_, index) = unpack_index(seen);
                    store_u64(mem, self.head, pop_attempt(seen, next));
                    proof {
                        self.lemma_head_store(before, mem@);
                    }
                    Task::PopClear { slab: index }
                } else {
                    Task::PopStart
                }
            },
            Task::PopClear { slab } => {
                let link = self.link_offset(slab, Ghost(mem@.len() as int));
                store_u32(mem, link, NULL_U32);
                proof {
                    self.lemma_stores(before, mem@, slab as int);
                    crate::memory::lemma_word_same(before, mem@, self.head as int, 8);
                }
                Task::Done { popped: Some(slab) }
            },
            Task::Done { popped } => task,
        }
    }

    proof fn lemma_head_store(self, a: Seq<u8>, b: Seq<u8>)
        requires
            self.wf(a.len() as int),
            same_outside(a, b, self.head as int, self.head + 8),
        ensures
            self.nexts(b) == self.nexts(a),
    {
        crate::records::lemma_table_frame(
            a,
            b,
            self.list as int,
            4,
            self.capacity as int,
            self.head as int,
            self.head + 8,
        );
        assert(self.nexts(b) =~= self.nexts(a));
    }
}

} // verus!
