//! The slabs that a worker owns, linked through a table with one record per slab.
use crate::index::NULL_U32;
use crate::memory::{load_u32, store_u32, u32_at, word};
use crate::node_table::NodeTable;
use crate::records::{lemma_record_within, record, record_offset};
use vstd::prelude::*;

verus! {

/// A doubly linked-list that tracks slabs assigned to a worker.
/// This list should only be accessed by the associated worker.
///
/// `head` is the offset of the head word, `list` says where the links lie.
#[derive(Clone, Copy)]
pub struct WorkerLocalList {
    pub head: usize,
    pub list: NodeTable,
}

impl WorkerLocalList {
    /// Head and links lie within a region of `size` bytes, without overlap.
    pub open spec fn wf(self, size: int) -> bool {
        &&& self.list.wf(size)
        &&& self.list.head_apart(size, self.head as int)
    }

    /// Head and links form a list.
    pub open spec fn is_list(self, mem: Seq<u8>) -> bool {
        self.list.is_list(mem, self.head as int)
    }

    /// The slabs in the list, in order.
    pub open spec fn contents(self, mem: Seq<u8>) -> Seq<u32> {
        self.list.list(mem, self.head as int)
    }

    /// The slabs in the list, and `slab`, as a set.
    pub open spec fn touched(self, mem: Seq<u8>, slab: u32) -> Set<int> {
        Set::new(
            |i: int|
                i == slab || (0 <= i < self.list.len && self.contents(mem).contains(i as u32)),
        )
    }

    /// Nothing differs but the head word and the links of the given slabs.
    pub open spec fn only_links(self, before: Seq<u8>, after: Seq<u8>, slabs: Set<int>) -> bool {
        self.list.only_links(before, after, self.head as int, slabs)
    }

    /// Creates a new `WorkerLocalList` with the given `head` and `list`.
    pub fn new(head: usize, list: NodeTable) -> (result: Self)
        ensures
            result.head == head,
            result.list == list,
    {
        WorkerLocalList { head, list }
    }

    /// Initializes the worker local list as empty, and clears the links of the first
    /// `capacity` slabs.
    pub fn initialize_as_empty(&self, mem: &mut [u8], capacity: u32)
        requires
            self.wf(old(mem)@.len() as int),
            capacity <= self.list.len,
        ensures
            self.is_list(final(mem)@),
            self.contents(final(mem)@) == Seq::<u32>::empty(),
            forall|i: int|
                0 <= i < capacity ==> #[trigger] self.list.prevs(final(mem)@)[i] == NULL_U32,
            forall|i: int|
                0 <= i < capacity ==> #[trigger] self.list.nexts(final(mem)@)[i] == NULL_U32,
            self.only_links(
                old(mem)@,
                final(mem)@,
                Set::new(|i: int| 0 <= i < capacity),
            ),
    {
        let ghost m0 = mem@;
        let ghost slabs = Set::new(|i: int| 0 <= i < capacity);
        let ghost base = self.list.base as int;
        let ghost stride = self.list.stride as int;
        let ghost n = self.list.len as int;
        store_u32(mem, self.head, NULL_U32);
        proof {
            crate::records::lemma_table_frame(
                m0,
                mem@,
                base,
                stride,
                n,
                self.head as int,
                self.head + 4,
            );
        }
        let mut slab_index: u32 = 0;
        while slab_index < capacity
            invariant
                slab_index <= capacity <= n,
                base == self.list.base,
                stride == self.list.stride,
                n == self.list.len,
                self.wf(mem@.len() as int),
                u32_at(mem@, self.head as int) == NULL_U32,
                forall|i: int|
                    0 <= i < slab_index ==> #[trigger] self.list.prevs(mem@)[i] == NULL_U32,
                forall|i: int|
                    0 <= i < slab_index ==> #[trigger] self.list.nexts(mem@)[i] == NULL_U32,
                slabs == Set::new(|i: int| 0 <= i < capacity),
                self.only_links(m0, mem@, slabs),
            decreases capacity - slab_index,
        {
            let ghost m1 = mem@;
            let k = slab_index as usize;
            let prev = record_offset(self.list.base, self.list.stride, k, self.list.prev, Ghost(n));
            let next = record_offset(self.list.base, self.list.stride, k, self.list.next, Ghost(n));
            proof {
                lemma_record_within(base, stride, n, k as int, self.list.prev as int, 4);
                lemma_record_within(base, stride, n, k as int, self.list.next as int, 4);
            }
            store_u32(mem, prev, NULL_U32);
            let ghost m2 = mem@;
            store_u32(mem, next, NULL_U32);
            proof {
                let m3 = mem@;
                crate::memory::lemma_word_same(m1, m2, self.head as int, 4);
                crate::memory::lemma_word_same(m2, m3, self.head as int, 4);
                crate::records::lemma_record_frame(
                    m1,
                    m2,
                    base,
                    stride,
                    n,
                    k as int,
                    self.list.prev as int,
                    4,
                );
                crate::records::lemma_record_frame(
                    m2,
                    m3,
                    base,
                    stride,
                    n,
                    k as int,
                    self.list.next as int,
                    4,
                );
                assert forall|i: int| 0 <= i < slab_index + 1 implies #[trigger] self.list.prevs(
                    m3,
                )[i] == NULL_U32 by {
                    let at = record(base, stride, i, self.list.prev as int);
                    assert(word(m3, at, 4) == word(m2, at, 4));
                    if i < slab_index {
                        assert(self.list.prevs(m1)[i] == NULL_U32);
                        assert(word(m2, at, 4) == word(m1, at, 4));
                    }
                }
                assert forall|i: int| 0 <= i < slab_index + 1 implies #[trigger] self.list.nexts(
                    m3,
                )[i] == NULL_U32 by {
                    let at = record(base, stride, i, self.list.next as int);
                    if i < slab_index {
                        assert(self.list.nexts(m1)[i] == NULL_U32);
                        assert(word(m2, at, 4) == word(m1, at, 4));
                        assert(word(m3, at, 4) == word(m2, at, 4));
                    }
                }
            }
            proof {
                assert(self.only_links(m1, m2, slabs));
                assert(self.only_links(m2, mem@, slabs));
                self.list.lemma_only_links_trans(
                    m1,
                    m2,
                    mem@,
                    self.head as int,
                    slabs,
                    slabs,
                    slabs,
                );
                self.list.lemma_only_links_trans(
                    m0,
                    m1,
                    mem@,
                    self.head as int,
                    slabs,
                    slabs,
                    slabs,
                );
            }
            slab_index = slab_index + 1;
        }
        proof {
            self.list.lemma_is_list(mem@, self.head as int, Seq::empty());
        }
    }

    /// Returns the head of the worker local list.
    pub fn head(&self, mem: &[u8]) -> (head: Option<u32>)
        requires
            self.wf(mem@.len() as int),
            self.is_list(mem@),
        ensures
            head == if self.contents(mem@).len() > 0 {
                Some(self.contents(mem@)[0])
            } else {
                None
            },
    {
        let head = load_u32(mem, self.head);
        proof {
            let list = self.contents(mem@);
            if list.len() > 0 {
                assert(list[0] < self.list.nexts(mem@).len());
            }
        }
        if head != NULL_U32 {
            Some(head)
        } else {
            None
        }
    }

    /// Pushes `slab_index` onto the head of the worker local list.
    pub fn push(&self, mem: &mut [u8], slab_index: u32)
        requires
            self.wf(old(mem)@.len() as int),
            self.is_list(old(mem)@),
            slab_index < self.list.len,
            !self.contents(old(mem)@).contains(slab_index),
        ensures
            self.is_list(final(mem)@),
            self.contents(final(mem)@) == seq![slab_index] + self.contents(old(mem)@),
            self.only_links(old(mem)@, final(mem)@, self.touched(old(mem)@, slab_index)),
    {
        let ghost before = mem@;
        self.list.push(mem, self.head, slab_index);
        proof {
            assert(self.touched(before, slab_index) =~= Set::new(
                |i: int|
                    i == slab_index || (0 <= i < self.list.len && self.list.list(
                        before,
                        self.head as int,
                    ).contains(i as u32)),
            ));
        }
    }

    /// Remove a slab from the list.
    pub fn remove(&self, mem: &mut [u8], slab_index: u32)
        requires
            self.wf(old(mem)@.len() as int),
            self.is_list(old(mem)@),
            self.contents(old(mem)@).contains(slab_index),
        ensures
            self.is_list(final(mem)@),
            self.contents(final(mem)@) == self.contents(old(mem)@).remove(
                self.contents(old(mem)@).index_of(slab_index),
            ),
            self.list.prevs(final(mem)@)[slab_index as int] == NULL_U32,
            self.list.nexts(final(mem)@)[slab_index as int] == NULL_U32,
            self.only_links(old(mem)@, final(mem)@, self.touched(old(mem)@, slab_index)),
    {
        let ghost before = mem@;
        proof {
            let list = self.contents(before);
            assert(list[list.index_of(slab_index)] < self.list.nexts(before).len());
        }
        self.list.remove(mem, self.head, slab_index);
        proof {
            assert(self.touched(before, slab_index) =~= Set::new(
                |i: int|
                    0 <= i < self.list.len && self.list.list(
                        before,
                        self.head as int,
                    ).contains(i as u32),
            ));
        }
    }

    /// The slabs in the worker local list, from the head on.
    pub fn iterate(&self, mem: &[u8]) -> (slabs: Vec<u32>)
        requires
            self.wf(mem@.len() as int),
            self.is_list(mem@),
        ensures
            slabs@ == self.contents(mem@),
    {
        let first = load_u32(mem, self.head);
        self.list.collect(mem, first)
    }
}

} // verus!
