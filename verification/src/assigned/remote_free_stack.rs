//! Slots of a slab that other workers have freed, drained one at a time.
use crate::index::NULL_U32;
use crate::interleave_remote::{RemoteTask, RemoteUse, RemoteWords};
use crate::intrusive::Thread;
use crate::memory::{load_u32, same_outside, store_u32, u32_at};
use crate::records::{lemma_record_apart, lemma_record_within};
use vstd::prelude::*;

verus! {

/// The remote free stack allows pushing and popping of indices from an intrusive linked list.
/// It is intended to be used in a MPSC manner, where multiple producers are
/// pushing freed indices and a single consumer is popping them.
#[derive(Clone, Copy)]
pub struct RemoteFreeStack {
    /// The offset of the head of the stack.
    pub head: usize,
}

/// The indices that a drained stack held and that were not handed out yet.
pub struct RemoteFreeStackIter {
    pub current: u32,
    pub slab_item_size: u32,
    pub slab: usize,
}

/// How a list is threaded through the slots of the slab at `slab`.
pub open spec fn slot_thread(slab: int, slab_item_size: int) -> Thread {
    Thread { base: slab, stride: slab_item_size, width: 4, null: NULL_U32 as int }
}

/// Different slots do not overlap.
pub proof fn lemma_slots_differ(slab: int, size: int, x: int, y: int)
    requires
        size >= 4,
        x != y,
    ensures
        slot_thread(slab, size).slot(x) + 4 <= slot_thread(slab, size).slot(y) || slot_thread(
            slab,
            size,
        ).slot(y) + 4 <= slot_thread(slab, size).slot(x),
{
    if x < y {
        lemma_record_apart(slab, size, x, y);
    } else {
        lemma_record_apart(slab, size, y, x);
    }
}

impl RemoteFreeStack {
    /// The indices in the stack, the last one pushed first.
    pub open spec fn contents(self, mem: Seq<u8>, slab_item_size: int, slab: int) -> Seq<int> {
        slot_thread(slab, slab_item_size).items(mem, u32_at(mem, self.head as int) as int)
    }

    /// The slot of an index can hold a link: it lies in a region of `size` bytes, after the
    /// start of the slab and apart from the head.
    pub open spec fn reaches(self, size: int, slab_item_size: int, slab: int, index: int) -> bool {
        &&& 0 <= index < NULL_U32
        &&& slab + index * slab_item_size + 4 <= size <= usize::MAX
        &&& self.head + 4 <= slab || slab + index * slab_item_size + 4 <= self.head
    }

    /// Head and slots form a stack.
    pub open spec fn is_stack(self, mem: Seq<u8>, slab_item_size: int, slab: int) -> bool {
        &&& slot_thread(slab, slab_item_size).threads(
            mem,
            u32_at(mem, self.head as int) as int,
            self.contents(mem, slab_item_size, slab),
        )
        &&& forall|i: int|
            0 <= i < self.contents(mem, slab_item_size, slab).len() ==> self.reaches(
                mem.len() as int,
                slab_item_size,
                slab,
                #[trigger] self.contents(mem, slab_item_size, slab)[i],
            )
    }

    /// Sets up the remote free stack with no items in the stack.
    pub fn reset(&self, mem: &mut [u8])
        requires
            self.head + 4 <= old(mem)@.len(),
        ensures
            u32_at(final(mem)@, self.head as int) == NULL_U32,
            forall|slab: int, size: int| #[trigger]
                self.contents(final(mem)@, size, slab) == Seq::<int>::empty(),
            same_outside(old(mem)@, final(mem)@, self.head as int, self.head + 4),
    {
        store_u32(mem, self.head, NULL_U32);
        proof {
            assert forall|slab: int, size: int| #[trigger]
                self.contents(mem@, size, slab) == Seq::<int>::empty() by {
                slot_thread(slab, size).lemma_items(mem@, NULL_U32 as int, Seq::empty());
            }
        }
    }

    /// Swaps the head of the stack with the sentinel, effectively clearing the stack.
    /// Returns an iterator over the indices that were in the stack.
    pub fn drain(&self, mem: &mut [u8], slab_item_size: u32, slab: usize) -> (iter:
        RemoteFreeStackIter)
        requires
            self.head + 4 <= old(mem)@.len(),
        ensures
            iter == (RemoteFreeStackIter {
                current: u32_at(old(mem)@, self.head as int),
                slab_item_size,
                slab,
            }),
            u32_at(final(mem)@, self.head as int) == NULL_U32,
            same_outside(old(mem)@, final(mem)@, self.head as int, self.head + 4),
    {
        let current = load_u32(mem, self.head);
        store_u32(mem, self.head, NULL_U32);
        RemoteFreeStackIter { current, slab_item_size, slab }
    }

    /// Pushes an item index onto the remote free stack.
    pub fn push(&self, mem: &mut [u8], item_index: u32, slab_item_size: u32, slab: usize)
        requires
            slab_item_size >= 4,
            self.head + 4 <= old(mem)@.len(),
            self.is_stack(old(mem)@, slab_item_size as int, slab as int),
            self.reaches(
                old(mem)@.len() as int,
                slab_item_size as int,
                slab as int,
                item_index as int,
            ),
            !self.contents(old(mem)@, slab_item_size as int, slab as int).contains(
                item_index as int,
            ),
        ensures
            self.is_stack(final(mem)@, slab_item_size as int, slab as int),
            self.contents(final(mem)@, slab_item_size as int, slab as int)
                == seq![item_index as int] + self.contents(
                old(mem)@,
                slab_item_size as int,
                slab as int,
            ),
            final(mem)@.len() == old(mem)@.len(),
            ({
                let at = slab + item_index * slab_item_size;
                forall|i: int|
                    0 <= i < old(mem)@.len() && !(self.head <= i < self.head + 4) && !(at <= i < at
                        + 4) ==> #[trigger] final(mem)@[i] == old(mem)@[i]
            }),
            u32_at(final(mem)@, self.head as int) == item_index,
    {
        let ghost m0 = mem@;
        let ghost size = slab_item_size as int;
        let ghost t = slot_thread(slab as int, size);
        let ghost list = self.contents(m0, size, slab as int);
        proof {
            vstd::arithmetic::mul::lemma_mul_nonnegative(item_index as int, size);
        }
        let slot = slab + item_index as usize * slab_item_size as usize;
        let current = load_u32(mem, self.head);
        // Write the current head to the slab at the item index.
        store_u32(mem, slot, current);
        let ghost m1 = mem@;
        store_u32(mem, self.head, item_index);
        proof {
            crate::memory::lemma_word_same(m1, mem@, slot as int, 4);
            crate::memory::lemma_word_bound(m1, slot as int, 4);
            reveal_with_fuel(crate::memory::limit, 5);
            assert forall|y: int| list.contains(y) implies #[trigger] t.next(mem@, y) == t.next(
                m0,
                y,
            ) by {
                let i = list.index_of(y);
                assert(self.reaches(m0.len() as int, size, slab as int, list[i]));
                vstd::arithmetic::mul::lemma_mul_nonnegative(y, size);
                lemma_slots_differ(slab as int, size, y, item_index as int);
                crate::memory::lemma_word_same(m0, mem@, t.slot(y), 4);
            }
            t.lemma_push(m0, mem@, current as int, list, item_index as int);
            let list2 = seq![item_index as int] + list;
            t.lemma_items(mem@, item_index as int, list2);
            assert forall|i: int| 0 <= i < list2.len() implies self.reaches(
                mem@.len() as int,
                size,
                slab as int,
                #[trigger] list2[i],
            ) by {
                if i > 0 {
                    assert(list2[i] == list[i - 1]);
                }
            }
        }
    }
}

impl RemoteFreeStack {
    /// The words that tasks share, for a slab with `capacity` slots.
    pub open spec fn words(self, mem: Seq<u8>, slab_item_size: int, slab: int, capacity: int) -> RemoteWords {
        RemoteWords {
            head: u32_at(mem, self.head as int) as u64,
            next: Map::new(
                |i: int| 0 <= i < capacity,
                |i: int| u32_at(mem, slab + i * slab_item_size) as u64,
            ),
        }
    }

    /// Makes the next access of a task on the stack of a slab with `capacity` slots.
    pub fn advance(
        &self,
        mem: &mut [u8],
        slab_item_size: u32,
        slab: usize,
        capacity: u32,
        task: RemoteTask,
    ) -> (next: RemoteTask)
        requires
            slab_item_size >= 4,
            slab + capacity * slab_item_size <= old(mem)@.len() <= usize::MAX,
            self.head + 4 <= slab,
            task.names(Set::new(|i: int| 0 <= i < capacity)),
            task.seen_below(0x1_0000_0000),
        ensures
            (self.words(final(mem)@, slab_item_size as int, slab as int, capacity as int), next)
                == task.step(
                self.words(old(mem)@, slab_item_size as int, slab as int, capacity as int),
                RemoteUse { null: NULL_U32 as u64, reload: true },
            ),
            match task {
                RemoteTask::PushLink { first, last, seen } => same_outside(
                    old(mem)@,
                    final(mem)@,
                    slab + last * slab_item_size,
                    slab + last * slab_item_size + 4,
                ),
                RemoteTask::PushSwap { first, last, seen } => same_outside(
                    old(mem)@,
                    final(mem)@,
                    self.head as int,
                    self.head + 4,
                ),
                RemoteTask::Drain => same_outside(
                    old(mem)@,
                    final(mem)@,
                    self.head as int,
                    self.head + 4,
                ),
                _ => final(mem)@ == old(mem)@,
            },
            next.seen_below(0x1_0000_0000),
    {
        let ghost before = mem@;
        let ghost size = slab_item_size as int;
        let ghost base = slab as int;
        let ghost n = capacity as int;
        proof {
            vstd::arithmetic::mul::lemma_mul_nonnegative(n, size);
        }
        match task {
            RemoteTask::PushStart { first, last } => {
                let seen = load_u32(mem, self.head) as u64;
                RemoteTask::PushLink { first, last, seen }
            },
            RemoteTask::PushLink { first, last, seen } => {
                proof {
                    lemma_record_within(base, size, n, last as int, 0, 4);
                }
                let slot = slab + last as usize * slab_item_size as usize;
                store_u32(mem, slot, seen as u32);
                proof {
                    let a = self.words(before, size, base, n);
                    let b = self.words(mem@, size, base, n);
                    crate::memory::lemma_word_same(before, mem@, self.head as int, 4);
                    assert forall|i: int| 0 <= i < n && i != last implies b.next[i]
                        == a.next[i] by {
                        lemma_record_within(base, size, n, i, 0, 4);
                        lemma_slots_differ(base, size, i, last as int);
                        crate::memory::lemma_word_same(before, mem@, base + i * size, 4);
                    }
                    assert(b.next =~= a.next.insert(last as int, seen));
                }
                RemoteTask::PushSwap { first, last, seen }
            },
            RemoteTask::PushSwap { first, last, seen } => {
                if load_u32(mem, self.head) as u64 == seen {
                    store_u32(mem, self.head, first as u32);
                    proof {
                        self.lemma_head_store(before, mem@, size, base, n);
                    }
                    RemoteTask::Done { drained: None }
                } else {
                    RemoteTask::PushStart { first, last }
                }
            },
            RemoteTask::Drain => {
                let head = load_u32(mem, self.head);
                store_u32(mem, self.head, NULL_U32);
                proof {
                    self.lemma_head_store(before, mem@, size, base, n);
                }
                RemoteTask::Done { drained: Some(head as u64) }
            },
            RemoteTask::Done { drained } => task,
        }
    }

    proof fn lemma_head_store(self, a: Seq<u8>, b: Seq<u8>, size: int, base: int, n: int)
        requires
            size >= 4,
            self.head + 4 <= base,
            base + n * size <= a.len(),
            same_outside(a, b, self.head as int, self.head + 4),
        ensures
            self.words(b, size, base, n).next == self.words(a, size, base, n).next,
    {
        assert forall|i: int| 0 <= i < n implies #[trigger] self.words(b, size, base, n).next[i]
            == self.words(a, size, base, n).next[i] by {
            lemma_record_within(base, size, n, i, 0, 4);
            crate::memory::lemma_word_same(a, b, base + i * size, 4);
        }
        assert(self.words(b, size, base, n).next =~= self.words(a, size, base, n).next);
    }
}

impl RemoteFreeStackIter {
    /// The iterator will hand out exactly the given indices, as long as their slots are not
    /// written.
    pub open spec fn yields(self, mem: Seq<u8>, list: Seq<int>) -> bool {
        slot_thread(self.slab as int, self.slab_item_size as int).threads(
            mem,
            self.current as int,
            list,
        )
    }

    /// The next index, or `None` if there is none left.
    pub fn next(&mut self, mem: &[u8]) -> (item: Option<u32>)
        requires
            old(self).current != NULL_U32 ==> old(self).slab + old(self).current
                * old(self).slab_item_size + 4 <= mem@.len() <= usize::MAX,
        ensures
            item == if old(self).current == NULL_U32 {
                None
            } else {
                Some(old(self).current)
            },
            final(self).slab_item_size == old(self).slab_item_size,
            final(self).slab == old(self).slab,
            final(self).current == if old(self).current == NULL_U32 {
                NULL_U32
            } else {
                u32_at(mem@, old(self).slab + old(self).current * old(self).slab_item_size)
            },
            forall|list: Seq<int>| #[trigger]
                old(self).yields(mem@, list) ==> (list.len() == 0 <==> item is None) && (list.len()
                    > 0 ==> item == Some(list[0] as u32) && final(self).yields(
                    mem@,
                    list.drop_first(),
                )),
    {
        let ghost before = *self;
        let ghost t = slot_thread(self.slab as int, self.slab_item_size as int);
        proof {
            assert forall|list: Seq<int>| #[trigger] before.yields(mem@, list) implies (list.len()
                == 0 <==> before.current == NULL_U32) && (list.len() > 0 ==> list[0]
                == before.current && t.threads(
                mem@,
                t.next(mem@, before.current as int),
                list.drop_first(),
            )) by {
                t.lemma_empty(mem@, before.current as int, list);
                if list.len() > 0 {
                    t.lemma_tail(mem@, before.current as int, list);
                }
            }
        }
        if self.current == NULL_U32 {
            return None;
        }
        // Read the current value and move to the next.
        let current = self.current;
        proof {
            vstd::arithmetic::mul::lemma_mul_nonnegative(
                current as int,
                self.slab_item_size as int,
            );
            crate::memory::lemma_word_bound(mem@, t.slot(current as int), 4);
            reveal_with_fuel(crate::memory::limit, 5);
        }
        let next = load_u32(mem, self.slab + current as usize * self.slab_item_size as usize);
        // Update the current to the next value.
        self.current = next;
        Some(current)
    }
}

} // verus!
