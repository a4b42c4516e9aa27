//! The slabs that no worker owns.
use crate::header::layout::NODE_SIZE;
use crate::index::NULL_U32;
use crate::linked_list_node::{NodeList, GLOBAL_NEXT};
use crate::links::{chain, linked};
use crate::memory::{load_u32, load_u64, store_u32, store_u64, u32_at, u64_at};
use crate::records::{column32, record, record_offset};
use vstd::prelude::*;

verus! {

/// The generation held in a tagged head.
pub open spec fn generation_of(tagged: u64) -> u32 {
    (tagged / 0x1_0000_0000) as u32
}

/// The slab index held in a tagged head.
pub open spec fn index_of(tagged: u64) -> u32 {
    (tagged % 0x1_0000_0000) as u32
}

/// A tagged head with the given generation and slab index.
pub open spec fn tagged(gen: u32, index: u32) -> u64 {
    (gen * 0x1_0000_0000 + index) as u64
}

/// The generation that follows `gen`; it wraps around.
pub open spec fn next_generation(gen: u32) -> u32 {
    if gen == u32::MAX {
        0
    } else {
        (gen + 1) as u32
    }
}

pub fn pack_index(gen: u32, index: u32) -> (packed: u64)
    ensures
        packed == tagged(gen, index),
        packed == gen * 0x1_0000_0000 + index,
{
    assert(((gen as u64) << 32u64) | (index as u64) == (gen as u64) * 0x1_0000_0000u64 + (
    index as u64)) by (bit_vector);
    ((gen as u64) << 32u64) | (index as u64)
}

pub fn unpack_index(packed: u64) -> (parts: (u32, u32))
    ensures
        parts.0 == generation_of(packed),
        parts.1 == index_of(packed),
{
    assert((packed >> 32u64) as u32 == (packed / 0x1_0000_0000u64) as u32) by (bit_vector);
    assert(packed as u32 == (packed % 0x1_0000_0000u64) as u32) by (bit_vector);
    ((packed >> 32u64) as u32, packed as u32)
}

/// Packing and unpacking lose nothing.
pub proof fn law_pack_round_trip(gen: u32, index: u32, packed: u64)
    ensures
        generation_of(tagged(gen, index)) == gen,
        index_of(tagged(gen, index)) == index,
        tagged(generation_of(packed), index_of(packed)) == packed,
{
}

/// What a push attempt does with the head it read: the link to store in the pushed
/// slab, and the head to exchange for the one that was read.
pub fn push_attempt(current_head: u64, slab_index: u32) -> (step: (u32, u64))
    ensures
        step.0 == index_of(current_head),
        step.1 == tagged(next_generation(generation_of(current_head)), slab_index),
{
    let (head_gen, head_index) = unpack_index(current_head);
    (head_index, pack_index(head_gen.wrapping_add(1), slab_index))
}

/// What a pop attempt does with the head and the link it read: the head to exchange
/// for the one that was read.
pub fn pop_attempt(current_head: u64, next_slab_index: u32) -> (new_head: u64)
    ensures
        new_head == tagged(next_generation(generation_of(current_head)), next_slab_index),
{
    let (head_gen, _head_index) = unpack_index(current_head);
    pack_index(head_gen.wrapping_add(1), next_slab_index)
}

/// A singly linked-list that tracks slabs not assigned to any worker.
///
/// The head is tagged: a generation counter and an index packed into a `u64`. Every
/// push and pop moves the generation on, so that a head that was popped and pushed back
/// does not look unchanged to a worker that read it before.
///
/// `head` is the offset of the head word, `list` says where the nodes lie.
#[derive(Clone, Copy)]
pub struct GlobalFreeList {
    pub head: usize,
    pub list: NodeList,
}

impl GlobalFreeList {
    /// The links of the global free list.
    pub open spec fn nexts(self, mem: Seq<u8>) -> Seq<u32> {
        column32(
            mem,
            self.list.offset as int,
            NODE_SIZE as int,
            GLOBAL_NEXT as int,
            self.list.len as nat,
        )
    }

    /// Head and nodes lie within a region of `size` bytes, without overlap.
    pub open spec fn wf(self, size: int) -> bool {
        &&& self.list.wf(size)
        &&& self.head + 8 <= size
        &&& self.head + 8 <= self.list.offset || self.list.end() <= self.head
    }

    /// Head and nodes form a list.
    pub open spec fn is_list(self, mem: Seq<u8>) -> bool {
        linked(self.nexts(mem), index_of(u64_at(mem, self.head as int)), self.contents(mem))
    }

    /// The slabs in the list, in order.
    pub open spec fn contents(self, mem: Seq<u8>) -> Seq<u32> {
        chain(self.nexts(mem), index_of(u64_at(mem, self.head as int)))
    }

    /// How often slabs were pushed and popped, modulo the range of the counter.
    pub open spec fn generation(self, mem: Seq<u8>) -> u32 {
        generation_of(u64_at(mem, self.head as int))
    }

    /// Nothing differs but the head word and the global link of `slab`.
    pub open spec fn only_link(self, a: Seq<u8>, b: Seq<u8>, slab: int) -> bool {
        &&& a.len() == b.len()
        &&& forall|i: int|
            0 <= i < a.len() && !(self.head <= i < self.head + 8) && !(record(
                self.list.offset as int,
                NODE_SIZE as int,
                slab,
                GLOBAL_NEXT as int,
            ) <= i < record(
                self.list.offset as int,
                NODE_SIZE as int,
                slab,
                GLOBAL_NEXT as int,
            ) + 4) ==> #[trigger] b[i] == a[i]
    }

    /// Creates a new `GlobalFreeList` with the given `head` and `list`.
    pub fn new(head: usize, list: NodeList) -> (result: Self)
        ensures
            result.head == head,
            result.list == list,
    {
        GlobalFreeList { head, list }
    }

    /// Effect of storing a link and then a head.
    proof fn lemma_stores(self, a: Seq<u8>, b: Seq<u8>, c: Seq<u8>, slab: int)
        requires
            self.wf(a.len() as int),
            0 <= slab < self.list.len,
            crate::memory::same_outside(
                a,
                b,
                record(self.list.offset as int, NODE_SIZE as int, slab, GLOBAL_NEXT as int),
                record(self.list.offset as int, NODE_SIZE as int, slab, GLOBAL_NEXT as int) + 4,
            ) && crate::memory::same_outside(b, c, self.head as int, self.head + 8)
                || crate::memory::same_outside(
                b,
                c,
                record(self.list.offset as int, NODE_SIZE as int, slab, GLOBAL_NEXT as int),
                record(self.list.offset as int, NODE_SIZE as int, slab, GLOBAL_NEXT as int) + 4,
            ) && crate::memory::same_outside(a, b, self.head as int, self.head + 8),
        ensures
            self.only_link(a, c, slab),
            self.nexts(c) == self.nexts(a).update(
                slab,
                u32_at(
                    c,
                    record(self.list.offset as int, NODE_SIZE as int, slab, GLOBAL_NEXT as int),
                ),
            ),
            u64_at(b, self.head as int) == u64_at(a, self.head as int) || u64_at(
                c,
                self.head as int,
            ) == u64_at(b, self.head as int),
    {
        let base = self.list.offset as int;
        let stride = NODE_SIZE as int;
        let n = self.list.len as int;
        let at = record(base, stride, slab, GLOBAL_NEXT as int);
        crate::records::lemma_record_within(base, stride, n, slab, GLOBAL_NEXT as int, 4);
        assert forall|i: int| 0 <= i < n && i != slab implies #[trigger] self.nexts(c)[i]
            == self.nexts(a)[i] by {
            crate::records::lemma_record_within(base, stride, n, i, GLOBAL_NEXT as int, 4);
            if i < slab {
                crate::records::lemma_record_apart(base, stride, i, slab);
            } else {
                crate::records::lemma_record_apart(base, stride, slab, i);
            }
            crate::memory::lemma_word_same(a, c, record(base, stride, i, GLOBAL_NEXT as int), 4);
        }
        assert(self.nexts(c) =~= self.nexts(a).update(slab, u32_at(c, at)));
        if crate::memory::same_outside(a, b, at, at + 4) {
            crate::memory::lemma_word_same(a, b, self.head as int, 8);
        } else {
            crate::memory::lemma_word_same(b, c, self.head as int, 8);
        }
    }

    /// Pushes `slab_index` onto the head of the global free list.
    pub fn push(&self, mem: &mut [u8], slab_index: u32)
        requires
            self.wf(old(mem)@.len() as int),
            self.is_list(old(mem)@),
            slab_index < self.list.len,
            !self.contents(old(mem)@).contains(slab_index),
        ensures
            self.is_list(final(mem)@),
            self.contents(final(mem)@) == seq![slab_index] + self.contents(old(mem)@),
            self.generation(final(mem)@) == next_generation(self.generation(old(mem)@)),
            self.only_link(old(mem)@, final(mem)@, slab_index as int),
    {
        let ghost m0 = mem@;
        let ghost list = self.contents(m0);
        proof {
            crate::records::lemma_record_within(
                self.list.offset as int,
                NODE_SIZE as int,
                self.list.len as int,
                slab_index as int,
                GLOBAL_NEXT as int,
                4,
            );
        }
        let link = record_offset(
            self.list.offset,
            NODE_SIZE,
            slab_index as usize,
            GLOBAL_NEXT,
            Ghost(self.list.len as int),
        );
        let current_head = load_u64(mem, self.head);
        let (next, new_head) = push_attempt(current_head, slab_index);
        store_u32(mem, link, next);
        let ghost m1 = mem@;
        store_u64(mem, self.head, new_head);
        proof {
            self.lemma_stores(m0, m1, mem@, slab_index as int);
            crate::memory::lemma_word_same(m1, mem@, link as int, 4);
            crate::links::lemma_linked_push(self.nexts(m0), next, list, slab_index);
            law_pack_round_trip(
                next_generation(generation_of(current_head)),
                slab_index,
                new_head,
            );
            crate::links::lemma_chain(self.nexts(mem@), slab_index, seq![slab_index] + list);
        }
    }

    /// Pops a slab index from the head of the global free list.
    /// Returns `None` if the list is empty.
    pub fn pop(&self, mem: &mut [u8]) -> (popped: Option<u32>)
        requires
            self.wf(old(mem)@.len() as int),
            self.is_list(old(mem)@),
        ensures
            popped is None <==> self.contents(old(mem)@).len() == 0,
            popped is None ==> final(mem)@ == old(mem)@,
            popped matches Some(slab) ==> {
                &&& slab == self.contents(old(mem)@)[0]
                &&& slab < self.list.len
                &&& self.is_list(final(mem)@)
                &&& self.contents(final(mem)@) == self.contents(old(mem)@).drop_first()
                &&& !self.contents(final(mem)@).contains(slab)
                &&& self.generation(final(mem)@) == next_generation(self.generation(old(mem)@))
                &&& self.list.node(final(mem)@, slab as int).global_next == NULL_U32
                &&& self.only_link(old(mem)@, final(mem)@, slab as int)
            },
    {
        let ghost m0 = mem@;
        let ghost list = self.contents(m0);
        let current_head = load_u64(mem, self.head);
        let (_head_gen, head_index) = unpack_index(current_head);
        proof {
            if list.len() > 0 {
                assert(list[0] < self.nexts(m0).len());
            }
        }
        if head_index == NULL_U32 {
            return None;
        }
        proof {
            crate::links::lemma_linked_pop(self.nexts(m0), head_index, list);
            crate::records::lemma_record_within(
                self.list.offset as int,
                NODE_SIZE as int,
                self.list.len as int,
                head_index as int,
                GLOBAL_NEXT as int,
                4,
            );
        }
        let link = record_offset(
            self.list.offset,
            NODE_SIZE,
            head_index as usize,
            GLOBAL_NEXT,
            Ghost(self.list.len as int),
        );
        let next_slab_index = load_u32(mem, link);
        let new_head = pop_attempt(current_head, next_slab_index);
        store_u64(mem, self.head, new_head);
        let ghost m1 = mem@;
        store_u32(mem, link, NULL_U32);
        proof {
            self.lemma_stores(m0, m1, mem@, head_index as int);
            crate::memory::lemma_word_same(m1, mem@, self.head as int, 8);
            law_pack_round_trip(
                next_generation(generation_of(current_head)),
                next_slab_index,
                new_head,
            );
            crate::links::lemma_chain(self.nexts(mem@), next_slab_index, list.drop_first());
        }
        Some(head_index)
    }
}

/// What is pushed is popped first, and the rest of the list is as before.
pub proof fn law_push_then_pop(list: Seq<u32>, slab: u32)
    ensures
        (seq![slab] + list)[0] == slab,
        (seq![slab] + list).drop_first() == list,
{
    assert((seq![slab] + list).drop_first() =~= list);
}

/// Each push and pop counts one generation on, and the count wraps around at 32 bits, so that no
/// two of 2^32 successive heads have the same.
pub proof fn law_generations(gen: u32)
    ensures
        next_generation(gen) as int == (gen + 1) % 0x1_0000_0000,
        next_generation(gen) != gen,
{
}

} // verus!
