//! Doubly linked lists threaded through a table of records, one record per slab.
use crate::index::NULL_U32;
use crate::links::{chain, dlinked, linked, nth};
use crate::memory::{load_u32, same_outside, store_u32, u32_at, word};
use crate::records::{column32, record, record_offset};
use vstd::prelude::*;

verus! {

/// Where the links of the slabs lie in the region: `len` records of `stride` bytes
/// from `base` on, each with a `prev` and a `next` word.
#[derive(Clone, Copy)]
pub struct NodeTable {
    pub base: usize,
    pub stride: usize,
    pub prev: usize,
    pub next: usize,
    pub len: u32,
}

impl NodeTable {
    /// The table is well shaped and lies within a region of `size` bytes.
    pub open spec fn wf(self, size: int) -> bool {
        &&& self.prev + 4 <= self.stride
        &&& self.next + 4 <= self.stride
        &&& self.prev + 4 <= self.next || self.next + 4 <= self.prev
        &&& self.base + self.len * self.stride <= size <= usize::MAX
    }

    /// One past the last byte of the table.
    pub open spec fn end(self) -> int {
        self.base + self.len * self.stride
    }

    /// `head` is the offset of a word in the region and outside the table.
    pub open spec fn head_apart(self, size: int, head: int) -> bool {
        &&& 0 <= head
        &&& head + 4 <= size
        &&& head + 4 <= self.base || self.end() <= head
    }

    pub open spec fn prevs(self, mem: Seq<u8>) -> Seq<u32> {
        column32(mem, self.base as int, self.stride as int, self.prev as int, self.len as nat)
    }

    pub open spec fn nexts(self, mem: Seq<u8>) -> Seq<u32> {
        column32(mem, self.base as int, self.stride as int, self.next as int, self.len as nat)
    }

    /// The head word at `head` and the table form a list.
    pub open spec fn is_list(self, mem: Seq<u8>, head: int) -> bool {
        dlinked(
            self.prevs(mem),
            self.nexts(mem),
            u32_at(mem, head),
            self.list(mem, head),
        )
    }

    /// The slabs of the list whose head word is at `head`, in order.
    pub open spec fn list(self, mem: Seq<u8>, head: int) -> Seq<u32> {
        chain(self.nexts(mem), u32_at(mem, head))
    }

    /// Only the head word at `head` and the links of the given slabs may differ.
    pub open spec fn only_links(
        self,
        a: Seq<u8>,
        b: Seq<u8>,
        head: int,
        slabs: Set<int>,
    ) -> bool {
        &&& a.len() == b.len()
        &&& forall|i: int|
            0 <= i < a.len() && !(head <= i < head + 4) && !(self.base <= i < self.end())
                ==> #[trigger] b[i] == a[i]
        &&& forall|i: int, g: int, v: nat|
            0 <= i < self.len && 0 <= g && g + v <= self.stride && (g + v <= self.prev || self.prev + 4
                <= g) && (g + v <= self.next || self.next + 4 <= g) ==> #[trigger] word(
                b,
                record(self.base as int, self.stride as int, i, g),
                v,
            ) == word(a, record(self.base as int, self.stride as int, i, g), v)
        &&& forall|i: int|
            0 <= i < self.len && !slabs.contains(i) ==> #[trigger] self.prevs(b)[i] == self.prevs(
                a,
            )[i]
        &&& forall|i: int|
            0 <= i < self.len && !slabs.contains(i) ==> #[trigger] self.nexts(b)[i] == self.nexts(
                a,
            )[i]
    }

    /// What `is_list` states, for the list that the caller already knows.
    pub proof fn lemma_is_list(self, mem: Seq<u8>, head: int, list: Seq<u32>)
        requires
            dlinked(self.prevs(mem), self.nexts(mem), u32_at(mem, head), list),
        ensures
            self.is_list(mem, head),
            self.list(mem, head) == list,
    {
        crate::links::lemma_chain(self.nexts(mem), u32_at(mem, head), list);
    }

    pub proof fn lemma_only_links_trans(
        self,
        a: Seq<u8>,
        b: Seq<u8>,
        c: Seq<u8>,
        head: int,
        x: Set<int>,
        y: Set<int>,
        z: Set<int>,
    )
        requires
            self.only_links(a, b, head, x),
            self.only_links(b, c, head, y),
            x.subset_of(z),
            y.subset_of(z),
        ensures
            self.only_links(a, c, head, z),
    {
        assert forall|i: int, g: int, v: nat|
            0 <= i < self.len && 0 <= g && g + v <= self.stride && (g + v <= self.prev || self.prev + 4
                <= g) && (g + v <= self.next || self.next + 4 <= g) implies #[trigger] word(
            c,
            record(self.base as int, self.stride as int, i, g),
            v,
        ) == word(a, record(self.base as int, self.stride as int, i, g), v) by {
            assert(word(c, record(self.base as int, self.stride as int, i, g), v) == word(
                b,
                record(self.base as int, self.stride as int, i, g),
                v,
            ));
        }
        assert forall|i: int|
            0 <= i < self.len && !z.contains(i) implies #[trigger] self.prevs(c)[i] == self.prevs(
            a,
        )[i] by {
            assert(self.prevs(c)[i] == self.prevs(b)[i]);
        }
        assert forall|i: int|
            0 <= i < self.len && !z.contains(i) implies #[trigger] self.nexts(c)[i] == self.nexts(
            a,
        )[i] by {
            assert(self.nexts(c)[i] == self.nexts(b)[i]);
        }
    }

    proof fn lemma_head_store(self, a: Seq<u8>, b: Seq<u8>, head: int)
        requires
            self.wf(a.len() as int),
            self.head_apart(a.len() as int, head),
            same_outside(a, b, head, head + 4),
        ensures
            self.only_links(a, b, head, Set::empty()),
            self.prevs(b) == self.prevs(a),
            self.nexts(b) == self.nexts(a),
    {
        crate::records::lemma_table_frame(
            a,
            b,
            self.base as int,
            self.stride as int,
            self.len as int,
            head,
            head + 4,
        );
        assert(self.prevs(b) =~= self.prevs(a));
        assert(self.nexts(b) =~= self.nexts(a));
    }

    proof fn lemma_link_store(self, a: Seq<u8>, b: Seq<u8>, head: int, k: int, field: int)
        requires
            self.wf(a.len() as int),
            self.head_apart(a.len() as int, head),
            0 <= k < self.len,
            field == self.prev || field == self.next,
            same_outside(
                a,
                b,
                record(self.base as int, self.stride as int, k, field),
                record(self.base as int, self.stride as int, k, field) + 4,
            ),
        ensures
            self.only_links(a, b, head, set![k]),
            u32_at(b, head) == u32_at(a, head),
            field == self.prev ==> self.nexts(b) == self.nexts(a) && self.prevs(b)
                == self.prevs(a).update(
                k,
                u32_at(b, record(self.base as int, self.stride as int, k, field)),
            ),
            field == self.next ==> self.prevs(b) == self.prevs(a) && self.nexts(b)
                == self.nexts(a).update(
                k,
                u32_at(b, record(self.base as int, self.stride as int, k, field)),
            ),
    {
        let at = record(self.base as int, self.stride as int, k, field);
        crate::records::lemma_record_frame(
            a,
            b,
            self.base as int,
            self.stride as int,
            self.len as int,
            k,
            field,
            4,
        );
        crate::records::lemma_record_within(
            self.base as int,
            self.stride as int,
            self.len as int,
            k,
            field,
            4,
        );
        crate::memory::lemma_frame(a, b, at, at + 4);
        if field == self.prev {
            assert(self.prevs(b) =~= self.prevs(a).update(k, u32_at(b, at)));
            assert(self.nexts(b) =~= self.nexts(a));
        } else {
            assert(self.nexts(b) =~= self.nexts(a).update(k, u32_at(b, at)));
            assert(self.prevs(b) =~= self.prevs(a));
        }
    }

    fn prev_of(&self, mem: &[u8], slab: u32) -> (value: u32)
        requires
            self.wf(mem@.len() as int),
            slab < self.len,
        ensures
            value == self.prevs(mem@)[slab as int],
    {
        proof {
            crate::records::lemma_record_within(
                self.base as int,
                self.stride as int,
                self.len as int,
                slab as int,
                self.prev as int,
                4,
            );
        }
        let off = record_offset(
            self.base,
            self.stride,
            slab as usize,
            self.prev,
            Ghost(self.len as int),
        );
        load_u32(mem, off)
    }

    fn next_of(&self, mem: &[u8], slab: u32) -> (value: u32)
        requires
            self.wf(mem@.len() as int),
            slab < self.len,
        ensures
            value == self.nexts(mem@)[slab as int],
    {
        proof {
            crate::records::lemma_record_within(
                self.base as int,
                self.stride as int,
                self.len as int,
                slab as int,
                self.next as int,
                4,
            );
        }
        let off = record_offset(
            self.base,
            self.stride,
            slab as usize,
            self.next,
            Ghost(self.len as int),
        );
        load_u32(mem, off)
    }

    fn set_prev(&self, mem: &mut [u8], slab: u32, value: u32, Ghost(head): Ghost<int>)
        requires
            self.wf(old(mem)@.len() as int),
            self.head_apart(old(mem)@.len() as int, head),
            slab < self.len,
        ensures
            self.only_links(old(mem)@, final(mem)@, head, set![slab as int]),
            u32_at(final(mem)@, head) == u32_at(old(mem)@, head),
            self.prevs(final(mem)@) == self.prevs(old(mem)@).update(slab as int, value),
            self.nexts(final(mem)@) == self.nexts(old(mem)@),
    {
        let ghost before = mem@;
        proof {
            crate::records::lemma_record_within(
                self.base as int,
                self.stride as int,
                self.len as int,
                slab as int,
                self.prev as int,
                4,
            );
        }
        let off = record_offset(
            self.base,
            self.stride,
            slab as usize,
            self.prev,
            Ghost(self.len as int),
        );
        store_u32(mem, off, value);
        proof {
            self.lemma_link_store(before, mem@, head, slab as int, self.prev as int);
        }
    }

    fn set_next(&self, mem: &mut [u8], slab: u32, value: u32, Ghost(head): Ghost<int>)
        requires
            self.wf(old(mem)@.len() as int),
            self.head_apart(old(mem)@.len() as int, head),
            slab < self.len,
        ensures
            self.only_links(old(mem)@, final(mem)@, head, set![slab as int]),
            u32_at(final(mem)@, head) == u32_at(old(mem)@, head),
            self.nexts(final(mem)@) == self.nexts(old(mem)@).update(slab as int, value),
            self.prevs(final(mem)@) == self.prevs(old(mem)@),
    {
        let ghost before = mem@;
        proof {
            crate::records::lemma_record_within(
                self.base as int,
                self.stride as int,
                self.len as int,
                slab as int,
                self.next as int,
                4,
            );
        }
        let off = record_offset(
            self.base,
            self.stride,
            slab as usize,
            self.next,
            Ghost(self.len as int),
        );
        store_u32(mem, off, value);
        proof {
            self.lemma_link_store(before, mem@, head, slab as int, self.next as int);
        }
    }

    /// Pushes `slab` onto the front of the list whose head word is at `head`.
    pub fn push(&self, mem: &mut [u8], head: usize, slab: u32)
        requires
            self.wf(old(mem)@.len() as int),
            self.head_apart(old(mem)@.len() as int, head as int),
            slab < self.len,
            self.is_list(old(mem)@, head as int),
            !self.list(old(mem)@, head as int).contains(slab),
        ensures
            self.is_list(final(mem)@, head as int),
            self.list(final(mem)@, head as int) == seq![slab] + self.list(
                old(mem)@,
                head as int,
            ),
            self.only_links(
                old(mem)@,
                final(mem)@,
                head as int,
                Set::new(
                    |i: int|
                        i == slab || (0 <= i < self.len && self.list(
                            old(mem)@,
                            head as int,
                        ).contains(i as u32)),
                ),
            ),
    {
        let ghost h = head as int;
        let ghost m0 = mem@;
        let ghost list = self.list(m0, h);
        let ghost all = Set::new(
            |i: int| i == slab || (0 <= i < self.len && list.contains(i as u32)),
        );
        let current_head = load_u32(mem, head);
        self.set_prev(mem, slab, NULL_U32, Ghost(h));
        let ghost m1 = mem@;
        self.set_next(mem, slab, current_head, Ghost(h));
        let ghost m2 = mem@;
        proof {
            self.lemma_only_links_trans(m0, m1, m2, h, set![slab as int], set![slab as int], all);
            if list.len() > 0 {
                assert(list[0] == current_head);
                assert(list.contains(current_head));
            }
        }
        if current_head != NULL_U32 {
            self.set_prev(mem, current_head, slab, Ghost(h));
            proof {
                assert(all.contains(current_head as int));
                self.lemma_only_links_trans(m0, m2, mem@, h, all, set![current_head as int], all);
            }
        }
        let ghost m3 = mem@;
        store_u32(mem, head, slab);
        proof {
            self.lemma_head_store(m3, mem@, h);
            self.lemma_only_links_trans(m0, m3, mem@, h, all, Set::empty(), all);
            crate::links::lemma_dlinked_push(
                self.prevs(m0),
                self.nexts(m0),
                current_head,
                list,
                slab,
                self.prevs(mem@),
                self.nexts(mem@),
            );
            self.lemma_is_list(mem@, h, seq![slab] + list);
        }
    }

    /// Removes `slab` from the list whose head word is at `head`.
    pub fn remove(&self, mem: &mut [u8], head: usize, slab: u32)
        requires
            self.wf(old(mem)@.len() as int),
            self.head_apart(old(mem)@.len() as int, head as int),
            self.is_list(old(mem)@, head as int),
            self.list(old(mem)@, head as int).contains(slab),
        ensures
            self.is_list(final(mem)@, head as int),
            self.list(final(mem)@, head as int) == self.list(old(mem)@, head as int).remove(
                self.list(old(mem)@, head as int).index_of(slab),
            ),
            self.prevs(final(mem)@)[slab as int] == NULL_U32,
            self.nexts(final(mem)@)[slab as int] == NULL_U32,
            self.only_links(
                old(mem)@,
                final(mem)@,
                head as int,
                Set::new(
                    |i: int|
                        0 <= i < self.len && self.list(old(mem)@, head as int).contains(i as u32),
                ),
            ),
    {
        let ghost h = head as int;
        let ghost m0 = mem@;
        let ghost list = self.list(m0, h);
        let ghost k = list.index_of(slab);
        let ghost all = Set::new(|i: int| 0 <= i < self.len && list.contains(i as u32));
        proof {
            assert(list[k] == slab);
            assert(nth(list, k - 1) == self.prevs(m0)[slab as int]);
            assert(nth(list, k + 1) == self.nexts(m0)[slab as int]);
            assert(all.contains(slab as int));
            if k > 0 {
                assert(list.contains(list[k - 1]));
                assert(list[k - 1] < self.nexts(m0).len());
            }
            if k + 1 < list.len() {
                assert(list.contains(list[k + 1]));
                assert(list[k + 1] < self.nexts(m0).len());
            }
        }
        let prev = self.prev_of(mem, slab);
        self.set_prev(mem, slab, NULL_U32, Ghost(h));
        let ghost m1 = mem@;
        let next = self.next_of(mem, slab);
        self.set_next(mem, slab, NULL_U32, Ghost(h));
        let ghost m2 = mem@;
        proof {
            self.lemma_only_links_trans(m0, m1, m2, h, set![slab as int], set![slab as int], all);
        }
        if prev != NULL_U32 {
            self.set_next(mem, prev, next, Ghost(h));
            proof {
                self.lemma_only_links_trans(m0, m2, mem@, h, all, set![prev as int], all);
            }
        } else {
            // No previous slab: this is the head.
            store_u32(mem, head, next);
            proof {
                self.lemma_head_store(m2, mem@, h);
                self.lemma_only_links_trans(m0, m2, mem@, h, all, Set::empty(), all);
            }
        }
        let ghost m3 = mem@;
        if next != NULL_U32 {
            self.set_prev(mem, next, prev, Ghost(h));
            proof {
                self.lemma_only_links_trans(m0, m3, mem@, h, all, set![next as int], all);
            }
        }
        proof {
            crate::links::lemma_dlinked_remove(
                self.prevs(m0),
                self.nexts(m0),
                u32_at(m0, h),
                list,
                k,
                self.prevs(mem@),
                self.nexts(mem@),
                u32_at(mem@, h),
            );
            self.lemma_is_list(mem@, h, list.remove(k));
            if k > 0 {
                assert(list[k - 1] != list[k]);
            }
            if k + 1 < list.len() {
                assert(list[k + 1] != list[k]);
            }
        }
    }

    /// The slabs from `first` on, following the `next` links.
    pub fn collect(&self, mem: &[u8], first: u32) -> (slabs: Vec<u32>)
        requires
            self.wf(mem@.len() as int),
            linked(self.nexts(mem@), first, chain(self.nexts(mem@), first)),
        ensures
            slabs@ == chain(self.nexts(mem@), first),
    {
        let ghost list = chain(self.nexts(mem@), first);
        let mut slabs: Vec<u32> = Vec::new();
        let mut current: u32 = first;
        while current != NULL_U32
            invariant
                self.wf(mem@.len() as int),
                linked(self.nexts(mem@), first, list),
                slabs@.len() <= list.len(),
                slabs@ == list.take(slabs@.len() as int),
                current == nth(list, slabs@.len() as int),
            decreases list.len() - slabs@.len(),
        {
            proof {
                assert(list[slabs@.len() as int] < self.nexts(mem@).len());
                assert(self.nexts(mem@)[list[slabs@.len() as int] as int] == nth(
                    list,
                    (slabs@.len() + 1) as int,
                ));
            }
            slabs.push(current);
            current = self.next_of(mem, current);
            assert(slabs@ =~= list.take(slabs@.len() as int));
        }
        proof {
            if slabs@.len() < list.len() {
                assert(list[slabs@.len() as int] < self.nexts(mem@).len());
            }
            assert(slabs@ =~= list);
        }
        slabs
    }
}

} // verus!
