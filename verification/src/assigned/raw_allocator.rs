//! The parts of a region, and the operations that no single worker is bound to.
use crate::align::is_power_of_two;
use crate::assigned::global_free_stack::{return_the_slab, try_pop_free_slab};
use crate::assigned::header::Header;
use crate::assigned::region::{
    AssignedState, RawLayout, ASSIGNED, CLASS, GLOBAL_FREE_STACK, NEXT, PREV, REMOTE,
    WORKER_STATES, WORKER_STATE_SIZE,
};
use crate::assigned::remote_free_stack::{slot_thread, RemoteFreeStackIter};
use crate::assigned::slab_meta::SlabMeta;
use crate::assigned::worker_local_list::WorkerLocalList;
use crate::assigned::worker_state::WorkerState;
use crate::global_free_list::{index_of, next_generation};
use crate::index::NULL_U32;
use crate::memory::{agree, u32_at};
use crate::node_table::NodeTable;
use crate::records::record_offset;
use crate::region::serves;
use crate::size_classes::{
    class_bytes, class_of, size_class, size_class_index, MAX_SIZE, NUM_SIZE_CLASSES,
};
use crate::state::list_id;
use crate::transitions::lemma_placed_push;
use vstd::prelude::*;

verus! {

/// A handle to a region that is mapped at the address `header`.
#[derive(Clone, Copy, Debug, PartialEq, Eq, Structural)]
pub struct RawAllocator {
    pub header: usize,
}

impl RawAllocator {
    /// Where things lie in the region.
    pub open spec fn layout(self, mem: Seq<u8>) -> RawLayout {
        Header::of(mem).layout_spec()
    }

    /// The state that the region holds.
    pub open spec fn state(self, mem: Seq<u8>) -> AssignedState {
        self.layout(mem).state(mem)
    }

    /// The region holds a state, and everything in it is as it should be.
    pub open spec fn valid(self, mem: Seq<u8>) -> bool {
        &&& self.header + mem.len() <= usize::MAX
        &&& self.layout(mem).wf()
        &&& self.layout(mem).fits(mem.len() as int)
        &&& self.layout(mem).holds(mem, self.state(mem))
        &&& self.state(mem).ok(self.layout(mem))
    }

    /// The offsets of the allocations in use.
    pub open spec fn live(self, mem: Seq<u8>) -> Set<int> {
        self.state(mem).live(self.layout(mem))
    }

    /// A region whose header is untouched and that holds a state in order.
    pub proof fn lemma_valid(self, a: Seq<u8>, b: Seq<u8>, s: AssignedState)
        requires
            self.header + a.len() <= usize::MAX,
            self.layout(a).wf(),
            self.layout(a).fits(a.len() as int),
            a.len() == b.len(),
            agree(a, b, 0, GLOBAL_FREE_STACK as int),
            self.layout(a).holds(b, s),
            s.ok(self.layout(a)),
        ensures
            self.valid(b),
            self.layout(b) == self.layout(a),
            self.state(b) == s,
    {
        Header::lemma_same(a, b);
        self.layout(a).lemma_state(b, s);
    }

    /// Reads the header of the region.
    pub fn header(&self, mem: &[u8]) -> (header: Header)
        requires
            mem@.len() >= 128,
        ensures
            header == Header::of(mem@),
    {
        Header::read(mem)
    }

    /// Whether the parts that the header describes come one after another and fit in the
    /// region.
    pub fn is_laid_out(&self, mem: &[u8]) -> (sound: bool)
        requires
            mem@.len() <= usize::MAX,
        ensures
            sound <==> mem@.len() >= 128 && self.layout(mem@).wf() && self.layout(mem@).fits(
                mem@.len() as int,
            ),
    {
        if mem.len() < 128 {
            return false;
        }
        let l = self.header(mem).layout();
        proof {
            vstd::arithmetic::mul::lemma_mul_upper_bound(
                l.num_slabs as int,
                u32::MAX as int,
                l.slab_meta_size as int,
                u32::MAX as int,
            );
            vstd::arithmetic::mul::lemma_mul_upper_bound(
                l.num_slabs as int,
                u32::MAX as int,
                l.slab_size as int,
                u32::MAX as int,
            );
            vstd::arithmetic::mul::lemma_mul_nonnegative(
                l.num_slabs as int,
                l.slab_meta_size as int,
            );
            vstd::arithmetic::mul::lemma_mul_nonnegative(l.num_slabs as int, l.slab_size as int);
            assert(0xffff_ffff * 0xffff_ffff + 0xffff_ffff <= u64::MAX);
        }
        let metas = l.num_slabs as u64 * l.slab_meta_size as u64 + l.slab_meta_offset as u64;
        let end = l.num_slabs as u64 * l.slab_size as u64 + l.slab_offset as u64;
        l.slab_size > 0 && is_power_of_two(l.slab_size) && l.num_workers as u64 * 40 + 128 <= l.slab_meta_offset as u64 && 192 + 2 * (
        l.slab_size as u64 / 256) <= l.slab_meta_size as u64 && metas <= l.slab_offset as u64
            && end <= 0xffff_ffff && end <= mem.len() as u64
    }

    /// Whether the slabs have room for an allocation of the given size, if any class has.
    pub fn can_serve(&self, mem: &[u8], size: u32) -> (served: bool)
        requires
            mem@.len() >= 128,
        ensures
            served == (size <= MAX_SIZE ==> serves(
                self.layout(mem@).slab_size as int,
                class_of(size as int),
            )),
    {
        match size_class_index(size) {
            None => true,
            Some(size_class_index) => {
                let slots = self.header(mem).slab_size / size_class(size_class_index);
                1 <= slots && slots <= u16::MAX as u32
            },
        }
    }

    /// Convert a pointer to an offset from the start of the header.
    pub fn ptr_to_offset(&self, ptr: usize) -> (offset: usize)
        requires
            self.header <= ptr,
        ensures
            offset == ptr - self.header,
    {
        ptr - self.header
    }

    /// Convert an offset to a pointer from the start of the header.
    pub fn offset_to_ptr(&self, offset: usize) -> (ptr: usize)
        requires
            self.header + offset <= usize::MAX,
        ensures
            ptr == self.header + offset,
    {
        self.header + offset
    }

    /// Given a slab index, return the slab metadata.
    pub fn slab_meta(&self, mem: &[u8], slab_index: u32) -> (meta: SlabMeta)
        requires
            mem@.len() >= 128,
            slab_index < self.layout(mem@).num_slabs,
            self.layout(mem@).slab_meta_offset + self.layout(mem@).num_slabs * self.layout(
                mem@,
            ).slab_meta_size <= mem@.len() <= usize::MAX,
            self.layout(mem@).slab_meta_size > 0,
        ensures
            meta.offset == self.layout(mem@).meta_at(slab_index as int),
    {
        let header = self.header(mem);
        let offset = record_offset(
            header.slab_meta_offset as usize,
            header.slab_meta_size as usize,
            slab_index as usize,
            0,
            Ghost(header.num_slabs as int),
        );
        SlabMeta { offset }
    }

    /// Given a slab index, return the offset of the slab memory.
    pub fn slab(&self, mem: &[u8], slab_index: u32) -> (offset: usize)
        requires
            mem@.len() >= 128,
            self.layout(mem@).end() <= u32::MAX,
            slab_index < self.layout(mem@).num_slabs,
            self.layout(mem@).slab_size > 0,
        ensures
            offset == self.layout(mem@).slab_at(slab_index as int),
    {
        let header = self.header(mem);
        proof {
            crate::records::lemma_record_within(
                header.slab_offset as int,
                header.slab_size as int,
                header.num_slabs as int,
                slab_index as int,
                0,
                header.slab_size as int,
            );
        }
        header.slab_offset as usize + (slab_index * header.slab_size) as usize
    }

    /// Given a worker index, return the worker state.
    pub fn worker_state(&self, mem: &[u8], worker_index: u32) -> (state: WorkerState)
        requires
            WORKER_STATES + self.layout(mem@).num_workers * WORKER_STATE_SIZE <= mem@.len()
                <= usize::MAX,
            worker_index < self.layout(mem@).num_workers,
        ensures
            state.is_at(mem@, WORKER_STATES + worker_index * WORKER_STATE_SIZE),
    {
        WorkerState::read(mem, WORKER_STATES + worker_index as usize * WORKER_STATE_SIZE)
    }

    /// The slabs with free slots that a worker owns for a class.
    pub fn partial_list(&self, mem: &[u8], worker_index: u32, size_class_index: usize) -> (list:
        WorkerLocalList)
        requires
            mem@.len() >= 128,
            self.layout(mem@).wf(),
            worker_index < self.layout(mem@).num_workers,
            size_class_index < NUM_SIZE_CLASSES,
        ensures
            list == self.layout(mem@).local_list(worker_index as int, 2 * size_class_index),
    {
        self.list_at(
            mem,
            WORKER_STATES + worker_index as usize * WORKER_STATE_SIZE + 4 * size_class_index,
        )
    }

    /// The slabs without free slots that a worker owns for a class.
    pub fn full_list(&self, mem: &[u8], worker_index: u32, size_class_index: usize) -> (list:
        WorkerLocalList)
        requires
            mem@.len() >= 128,
            self.layout(mem@).wf(),
            worker_index < self.layout(mem@).num_workers,
            size_class_index < NUM_SIZE_CLASSES,
        ensures
            list == self.layout(mem@).local_list(worker_index as int, 2 * size_class_index + 1),
    {
        self.list_at(
            mem,
            WORKER_STATES + worker_index as usize * WORKER_STATE_SIZE + 20 + 4 * size_class_index,
        )
    }

    fn list_at(&self, mem: &[u8], head: usize) -> (list: WorkerLocalList)
        requires
            mem@.len() >= 128,
        ensures
            list == (WorkerLocalList { head, list: self.layout(mem@).nodes() }),
    {
        let header = self.header(mem);
        WorkerLocalList::new(
            head,
            NodeTable {
                base: header.slab_meta_offset as usize,
                stride: header.slab_meta_size as usize,
                prev: PREV,
                next: NEXT,
                len: header.num_slabs,
            },
        )
    }

    /// Take a free slab for the worker, for a specific size class.
    /// Returns whether there was one.
    pub fn take_free_slab(
        &self,
        mem: &mut [u8],
        worker_index: u32,
        size_class_index: usize,
    ) -> (taken: bool)
        requires
            self.valid(old(mem)@),
            worker_index < self.layout(old(mem)@).num_workers,
            size_class_index < NUM_SIZE_CLASSES,
            self.state(old(mem)@).lists[0].len() > 0 ==> serves(
                self.layout(old(mem)@).slab_size as int,
                size_class_index as int,
            ),
        ensures
            self.valid(final(mem)@),
            self.layout(final(mem)@) == self.layout(old(mem)@),
            taken <==> self.state(old(mem)@).lists[0].len() > 0,
            !taken ==> final(mem)@ == old(mem)@,
            taken ==> self.state(final(mem)@) == self.state(old(mem)@).take_slab(
                self.layout(old(mem)@),
                worker_index as int,
                size_class_index as int,
            ),
            self.layout(old(mem)@).only_tables(old(mem)@, final(mem)@),
    {
        let ghost m0 = mem@;
        let ghost l = self.layout(m0);
        let ghost s = self.state(m0);
        let ghost w = worker_index as int;
        let ghost class = size_class_index as int;
        proof {
            l.lemma_bounds();
            l.lemma_ok(s);
            l.lemma_read_global(m0, s);
            crate::links::lemma_chain(
                l.tables(m0).next,
                index_of(l.tables(m0).ghead),
                s.lists[0],
            );
        }
        let slab_index = match try_pop_free_slab(self, mem) {
            Some(slab_index) => slab_index,
            None => {
                return false;
            },
        };
        let ghost slab = slab_index as int;
        let ghost m1 = mem@;
        let ghost s1 = AssignedState {
            generation: next_generation(s.generation),
            lists: s.lists.update(0, s.lists[0].drop_first()),
            ..s
        };
        let ghost places = s.slabs_state(l).places().update(slab, -1);
        let ghost id = list_id(w, class, false);
        proof {
            Header::lemma_same(m0, m1);
            l.lemma_holds_pop(m0, m1, s);
            s.lemma_take_slab(l, w, class);
            l.lemma_ready_local(m1, s1, w, 2 * class);
            assert(s1.lists[id] == s.lists[id]);
            lemma_placed_push(places, s1.lists, id, slab);
        }
        // The slab becomes part of the worker's partial list.
        self.partial_list(mem, worker_index, size_class_index).push(mem, slab_index);
        let ghost m2 = mem@;
        let ghost s2 = AssignedState {
            lists: s1.lists.update(id, seq![slab_index] + s1.lists[id]),
            ..s1
        };
        proof {
            l.lemma_holds_local(m1, m2, s1, w, 2 * class, places, slab_index);
            Header::lemma_same(m1, m2);
            l.lemma_read_meta(m2, s2, slab);
        }
        // Now set up the slab's metadata to reflect this.
        let slab_size = self.header(mem).slab_size;
        self.slab_meta(mem, slab_index).assign(mem, slab_size, worker_index, size_class_index);
        proof {
            let after = s.take_slab(l, w, class);
            slot_thread(l.slab_at(slab), class_bytes(class)).lemma_items(
                mem@,
                NULL_U32 as int,
                Seq::empty(),
            );
            l.lemma_holds_row(m2, mem@, s2, slab, Seq::empty());
            self.lemma_valid(m0, mem@, after);
        }
        true
    }

    /// The slots of a slab that other workers have freed leave its remote free stack.
    /// Should only be called by the worker that owns the slab.
    pub fn drain_remote_frees(&self, mem: &mut [u8], slab_index: u32) -> (iter: RemoteFreeStackIter)
        requires
            self.valid(old(mem)@),
            slab_index < self.layout(old(mem)@).num_slabs,
            self.state(old(mem)@).assigned[slab_index as int] != NULL_U32,
        ensures
            self.valid(final(mem)@),
            self.layout(final(mem)@) == self.layout(old(mem)@),
            self.state(final(mem)@) == self.state(old(mem)@).without_remote(slab_index as int),
            iter.yields(final(mem)@, self.state(old(mem)@).remote[slab_index as int]),
            iter.slab == self.layout(old(mem)@).slab_at(slab_index as int),
            iter.slab_item_size == class_bytes(
                self.state(old(mem)@).class[slab_index as int] as int,
            ),
            self.layout(old(mem)@).only_tables(old(mem)@, final(mem)@),
    {
        let ghost m0 = mem@;
        let ghost l = self.layout(m0);
        let ghost s = self.state(m0);
        let ghost slab = slab_index as int;
        proof {
            l.lemma_bounds();
            l.lemma_ok(s);
            l.lemma_read_meta(m0, s, slab);
            l.lemma_slab_within(slab);
            let _ = s.class[slab];
        }
        let slab_meta = self.slab_meta(mem, slab_index);
        let slab_item_size = size_class(slab_meta.size_class_index(mem));
        let slab_offset = self.slab(mem, slab_index);
        let iter = slab_meta.remote_free_stack().drain(mem, slab_item_size, slab_offset);
        proof {
            let at = l.meta_at(slab);
            let th = slot_thread(l.slab_at(slab), slab_item_size as int);
            th.lemma_items(mem@, NULL_U32 as int, Seq::empty());
            crate::memory::lemma_word_same(m0, mem@, at + PREV, 4);
            crate::memory::lemma_word_same(m0, mem@, at + NEXT, 4);
            crate::memory::lemma_word_same(m0, mem@, at + ASSIGNED, 4);
            crate::memory::lemma_word_same(m0, mem@, at + CLASS, 1);
            l.lemma_free_stack_same(m0, mem@, s, slab);
            l.lemma_holds_row(m0, mem@, s, slab, Seq::empty());
            s.lemma_without_remote(l, slab);
            let after = s.without_remote(slab);
            assert(s.assigned.update(slab, s.assigned[slab]) =~= s.assigned);
            assert(s.class.update(slab, s.class[slab]) =~= s.class);
            assert(s.stack.update(slab, s.stack[slab]) =~= s.stack);
            self.lemma_valid(m0, mem@, after);
            let list = s.remote[slab];
            assert forall|x: int| list.contains(x) implies #[trigger] th.next(mem@, x) == th.next(
                m0,
                x,
            ) by {
                let j = list.index_of(x);
                assert(0 <= s.remote[slab][j] < s.capacity(l, slab));
                l.lemma_slot_at(slab, s.class[slab] as int, x);
                crate::memory::lemma_word_same(m0, mem@, th.slot(x), 4);
            }
            th.lemma_frame(m0, mem@, u32_at(m0, at + REMOTE) as int, list);
        }
        iter
    }

    /// All slabs of one list go back to the global free stack.
    fn clear_list(
        &self,
        mem: &mut [u8],
        list: &WorkerLocalList,
        Ghost(w): Ghost<int>,
        Ghost(k): Ghost<int>,
    )
        requires
            self.valid(old(mem)@),
            0 <= w < self.layout(old(mem)@).num_workers,
            0 <= k < 10,
            *list == self.layout(old(mem)@).local_list(w, k),
        ensures
            self.valid(final(mem)@),
            self.layout(final(mem)@) == self.layout(old(mem)@),
            self.state(final(mem)@) == self.state(old(mem)@).clear_list(1 + 10 * w + k),
            self.layout(old(mem)@).only_tables(old(mem)@, final(mem)@),
    {
        let ghost m0 = mem@;
        let ghost l = self.layout(m0);
        let ghost id = 1 + 10 * w + k;
        let ghost goal = self.state(m0).clear_list(id);
        let ghost mut s = self.state(m0);
        proof {
            l.lemma_ok(s);
            l.lemma_ready_local(m0, s, w, k);
        }
        let mut current_head = list.head(mem);
        loop
            invariant_except_break
                l == self.layout(m0),
                m0 == old(mem)@,
                self.valid(mem@),
                self.layout(mem@) == l,
                s == self.state(mem@),
                0 <= w < l.num_workers,
                0 <= k < 10,
                id == 1 + 10 * w + k,
                *list == l.local_list(w, k),
                list.wf(mem@.len() as int),
                list.is_list(mem@),
                list.contents(mem@) == s.lists[id],
                s.lists.len() == 1 + 10 * l.num_workers,
                current_head == if s.lists[id].len() > 0 {
                    Some(s.lists[id][0])
                } else {
                    None
                },
                s.clear_list(id) == goal,
                l.only_tables(m0, mem@),
            ensures
                self.valid(mem@),
                self.layout(mem@) == l,
                self.state(mem@) == goal,
                l.only_tables(m0, mem@),
            decreases s.lists[id].len(),
        {
            match current_head {
                None => {
                    break;
                },
                Some(slab_index) => {
                    let ghost slab = slab_index as int;
                    let ghost m1 = mem@;
                    let ghost places = s.slabs_state(l).places();
                    let ghost next = s.return_first(id);
                    proof {
                        l.lemma_bounds();
                        l.lemma_ok(s);
                        s.lemma_return_first(l, id);
                    }
                    list.remove(mem, slab_index);
                    let ghost m2 = mem@;
                    let ghost s2 = AssignedState {
                        lists: s.lists.update(id, s.lists[id].drop_first()),
                        ..s
                    };
                    proof {
                        l.lemma_holds_local(m1, m2, s, w, k, places, slab_index);
                        Header::lemma_same(m1, m2);
                        l.lemma_read_global(m2, s2);
                        l.lemma_meta_within(slab);
                    }
                    return_the_slab(self, mem, slab_index);
                    proof {
                        l.lemma_holds_return(m2, mem@, s2, places.update(slab, -1), slab);
                        assert(s2.lists[0] == s.lists[0]);
                        assert(s.lists.update(id, s.lists[id].drop_first()).update(
                            0,
                            seq![slab as u32] + s.lists[0],
                        ) =~= next.lists);
                        self.lemma_valid(m1, mem@, next);
                        s = next;
                        l.lemma_ready_local(mem@, s, w, k);
                    }
                    current_head = list.head(mem);
                },
            }
        }
    }

    /// Gives all slabs of a worker back, whatever is in use in them.
    pub fn clear_worker(&self, mem: &mut [u8], worker_index: u32)
        requires
            self.valid(old(mem)@),
            worker_index < self.layout(old(mem)@).num_workers,
        ensures
            self.valid(final(mem)@),
            self.layout(final(mem)@) == self.layout(old(mem)@),
            self.state(final(mem)@) == self.state(old(mem)@).clear_worker(
                worker_index as int,
                NUM_SIZE_CLASSES as int,
            ),
            self.layout(old(mem)@).only_tables(old(mem)@, final(mem)@),
    {
        let ghost m0 = mem@;
        let ghost l = self.layout(m0);
        let ghost s0 = self.state(m0);
        let mut size_index: usize = 0;
        while size_index < NUM_SIZE_CLASSES
            invariant
                size_index <= NUM_SIZE_CLASSES,
                l == self.layout(m0),
                self.valid(mem@),
                self.layout(mem@) == l,
                worker_index < l.num_workers,
                self.state(mem@) == s0.clear_worker(worker_index as int, size_index as int),
                l.only_tables(m0, mem@),
            decreases NUM_SIZE_CLASSES - size_index,
        {
            proof {
                l.lemma_bounds();
            }
            let partial = self.partial_list(mem, worker_index, size_index);
            self.clear_list(mem, &partial, Ghost(worker_index as int), Ghost(2 * size_index as int));
            let full = self.full_list(mem, worker_index, size_index);
            self.clear_list(
                mem,
                &full,
                Ghost(worker_index as int),
                Ghost(2 * size_index as int + 1),
            );
            size_index = size_index + 1;
        }
    }
}

} // verus!
