//! How workers get allocations.
use crate::allocator::Allocator;
use crate::index::NULL_U32;
use crate::memory::{load_u64, store_u64};
use crate::region::OUTSTANDING;
use crate::size_classes::{
    class_bytes, class_of, size_class_index, size_class_unchecked, MAX_SIZE, NUM_SIZE_CLASSES,
};
use crate::state::{list_id, State};
use crate::transitions::lemma_placed_push;
use vstd::prelude::*;

verus! {

impl Allocator {
    /// Allocates a block of memory of the given size.
    /// If the size is larger than the maximum size class, returns `None`.
    /// If the allocation fails, returns `None`.
    pub fn allocate(&self, mem: &mut [u8], size: u32) -> (ptr: Option<usize>)
        requires
            self.valid(old(mem)@),
        ensures
            self.valid(final(mem)@),
            ptr is None <==> (size == 0 || size > MAX_SIZE || !self.state(
                old(mem)@,
            ).can_allocate(self.worker_index as int, class_of(size as int))),
            ptr is Some <==> 1 <= size <= 4096 && ((exists|i: int|
                0 <= i < self.base.layout.num_slabs && #[trigger] self.state(
                    old(mem)@,
                ).assigned[i] == NULL_U32) || (exists|i: int|
                0 <= i < self.base.layout.num_slabs && self.state(old(mem)@).assigned[i]
                    == self.worker_index && self.state(old(mem)@).class[i] == class_of(size as int)
                    && (#[trigger] self.state(old(mem)@).stack[i]).len() > 0)),
            ptr is None ==> final(mem)@ == old(mem)@,
            ptr matches Some(p) ==> {
                let l = self.base.layout;
                let s = self.state(old(mem)@);
                let w = self.worker_index as int;
                let class = class_of(size as int);
                &&& p == self.base.region.header + s.next_allocation(l, w, class)
                &&& self.state(final(mem)@) == s.allocate(l, w, class)
                &&& l.slabs_offset <= p - self.base.region.header
                &&& p - self.base.region.header + class_bytes(class) <= old(mem)@.len()
                &&& size <= class_bytes(class)
                &&& !self.base.live(old(mem)@).contains(p - self.base.region.header)
                &&& self.base.live(final(mem)@) == self.base.live(old(mem)@).insert(
                    p - self.base.region.header,
                )
            },
            self.base.layout.only_tables(old(mem)@, final(mem)@),
    {
        proof {
            if 1 <= size <= 4096 {
                crate::effects::law_served_while_memory_is_left(
                    self.base.layout,
                    self.state(mem@),
                    self.worker_index as int,
                    size as int,
                );
            }
        }
        // Explicitly reject zero-sized allocations.
        if size == 0 {
            return None;
        }
        match size_class_index(size) {
            None => None,
            Some(size_index) => {
                match self.find_allocatable_slab_index(mem, size_index) {
                    None => None,
                    Some(slab_index) => {
                        proof {
                            self.base.layout.lemma_bounds();
                            crate::laws::law_allocate(
                                self.base.layout,
                                self.state(old(mem)@),
                                self.worker_index as int,
                                size as int,
                            );
                        }
                        self.allocate_within_slab(mem, slab_index, size_index)
                    },
                }
            },
        }
    }

    /// Try to find a suitable slab for allocation.
    /// If a partial slab assigned to the worker is not found, then try to find
    /// a slab from the global free list.
    pub fn find_allocatable_slab_index(&self, mem: &mut [u8], size_index: usize) -> (slab_index:
        Option<u32>)
        requires
            self.valid(old(mem)@),
            size_index < NUM_SIZE_CLASSES,
        ensures
            self.valid(final(mem)@),
            slab_index is Some <==> self.state(old(mem)@).can_allocate(
                self.worker_index as int,
                size_index as int,
            ),
            slab_index is None ==> final(mem)@ == old(mem)@,
            slab_index matches Some(slab) ==> {
                let l = self.base.layout;
                let w = self.worker_index as int;
                let after = self.state(final(mem)@);
                &&& (after, slab as int) == self.state(old(mem)@).ready(l, w, size_index as int)
                &&& slab < l.num_slabs
                &&& after.place(slab as int) == list_id(w, size_index as int, false)
                &&& after.assigned[slab as int] == w
                &&& after.class[slab as int] == size_index
            },
            self.base.layout.only_tables(old(mem)@, final(mem)@),
    {
        let ghost l = self.base.layout;
        let ghost w = self.worker_index as int;
        let ghost s = self.state(mem@);
        let ghost id = list_id(w, size_index as int, false);
        proof {
            l.lemma_ready_local(mem@, s, w, 2 * size_index);
        }
        match self.worker_local_list_partial(size_index).head(mem) {
            Some(slab_index) => {
                proof {
                    assert(s.lists[id][0] == slab_index);
                    assert(s.places()[slab_index as int] == id);
                    assert(s.slab_ok(l, slab_index as int));
                }
                Some(slab_index)
            },
            None => self.take_slab(mem, size_index),
        }
    }

    /// Attempt to take a slab from the global free list.
    /// If the global free list is empty, returns `None`.
    /// If the slab is successfully taken, it will be marked as assigned to the worker.
    pub fn take_slab(&self, mem: &mut [u8], size_index: usize) -> (slab_index: Option<u32>)
        requires
            self.valid(old(mem)@),
            size_index < NUM_SIZE_CLASSES,
        ensures
            self.valid(final(mem)@),
            slab_index is None <==> self.state(old(mem)@).lists[0].len() == 0,
            slab_index is None ==> final(mem)@ == old(mem)@,
            slab_index matches Some(slab) ==> {
                &&& slab == self.state(old(mem)@).lists[0][0]
                &&& slab < self.base.layout.num_slabs
                &&& self.state(final(mem)@) == self.state(old(mem)@).take_slab(
                    self.base.layout,
                    self.worker_index as int,
                    size_index as int,
                )
            },
            self.base.layout.only_tables(old(mem)@, final(mem)@),
    {
        let ghost l = self.base.layout;
        let ghost w = self.worker_index as int;
        let ghost class = size_index as int;
        let ghost m0 = mem@;
        let ghost s = self.state(m0);
        proof {
            self.base.lemma_fit(s);
            l.lemma_ready_global(m0, s);
        }
        let slab_index = match self.global_free_list().pop(mem) {
            None => {
                return None;
            },
            Some(slab_index) => slab_index,
        };
        let ghost slab = slab_index as int;
        let ghost m1 = mem@;
        let ghost s1 = State {
            generation: crate::global_free_list::next_generation(s.generation),
            lists: s.lists.update(0, s.lists[0].drop_first()),
            ..s
        };
        proof {
            l.lemma_holds_global(m0, m1, s, slab);
            crate::slots::lemma_serves(l.slab_size as int, class);
            s.lemma_take_slab(l, w, class);
        }
        let meta = self.slab_meta(slab_index);
        proof {
            l.lemma_read_meta(m1, s1, slab);
        }
        meta.assign(mem, self.worker_index, size_index);
        let ghost m2 = mem@;
        let ghost s2 = State {
            assigned: s1.assigned.update(slab, w as u32),
            class: s1.class.update(slab, class as u64),
            ..s1
        };
        proof {
            l.lemma_holds_meta(m1, m2, s1, slab);
            l.lemma_ready_stack(m2, s2, slab);
            crate::slots::lemma_slots(l.slab_size as int, class);
        }
        let slab_capacity = self.base.layout.slab_size / size_class_unchecked(size_index);
        self.slab_free_stack(slab_index).reset(mem, slab_capacity as u16);
        let ghost m3 = mem@;
        let ghost s3 = State {
            stack: s2.stack.update(slab, crate::state::all_slots(l.slots(class))),
            cap: s2.cap.update(slab, l.slots(class) as u16),
            ..s2
        };
        let ghost places = s.places().update(slab, -1);
        let ghost id = list_id(w, class, false);
        proof {
            l.lemma_holds_stack(m2, m3, s2, slab, l.slots(class));
            assert(l.free_stack(slab).contents(m3) =~= crate::state::all_slots(l.slots(class)));
            assert forall|i: int| 0 <= i < l.num_slabs implies (#[trigger] s3.stack[i]).len()
                <= l.slab_size / 256 by {
                let _ = s.stack[i];
            }
            l.lemma_ready_local(m3, s3, w, 2 * class);
            assert(s3.lists[id] == s.lists[id]);
            lemma_placed_push(places, s3.lists, id, slab);
        }
        self.worker_local_list_partial(size_index).push(mem, slab_index);
        proof {
            l.lemma_holds_local(m3, mem@, s3, w, 2 * class, places, slab_index);
            self.base.lemma_in_order(m0, mem@, s.take_slab(l, w, class));
        }
        Some(slab_index)
    }

    /// Allocate the next free slot of a slab of this worker, which has one.
    pub fn allocate_within_slab(
        &self,
        mem: &mut [u8],
        slab_index: u32,
        size_index: usize,
    ) -> (ptr: Option<usize>)
        requires
            self.valid(old(mem)@),
            slab_index < self.base.layout.num_slabs,
            self.state(old(mem)@).assigned[slab_index as int] == self.worker_index,
            self.state(old(mem)@).class[slab_index as int] == size_index,
            self.state(old(mem)@).place(slab_index as int) == list_id(
                self.worker_index as int,
                size_index as int,
                false,
            ),
        ensures
            self.valid(final(mem)@),
            ptr == Some(
                (self.base.region.header + self.state(old(mem)@).slot_at(
                    self.base.layout,
                    slab_index as int,
                    self.state(old(mem)@).stack[slab_index as int].last() as int,
                )) as usize,
            ),
            self.base.region.header + self.state(old(mem)@).slot_at(
                self.base.layout,
                slab_index as int,
                self.state(old(mem)@).stack[slab_index as int].last() as int,
            ) <= usize::MAX,
            self.state(final(mem)@) == self.state(old(mem)@).pop_slot(slab_index as int),
            self.base.layout.only_tables(old(mem)@, final(mem)@),
    {
        let ghost l = self.base.layout;
        let ghost w = self.worker_index as int;
        let ghost class = size_index as int;
        let ghost slab = slab_index as int;
        let ghost m0 = mem@;
        let ghost s = self.state(m0);
        let ghost index = s.stack[slab].last() as int;
        let ghost off = s.slot_at(l, slab, index);
        proof {
            self.base.lemma_fit(s);
            l.lemma_bounds();
            assert(s.slab_ok(l, slab));
            assert(s.stack[slab].len() > 0);
            s.lemma_pop_slot(l, slab);
            l.lemma_ready_stack(m0, s, slab);
            assert(s.places()[slab] == s.place(slab));
        }
        let free_stack = self.slab_free_stack(slab_index);
        let maybe_index_within_slab = free_stack.pop(mem);
        let is_empty = free_stack.is_empty(mem);
        let ghost m1 = mem@;
        let ghost mut s1 = State { stack: s.stack.update(slab, s.stack[slab].drop_last()), ..s };
        proof {
            l.lemma_holds_stack(m0, m1, s, slab, 0);
            assert(s.cap.update(slab, s.cap[slab]) =~= s.cap);
            assert forall|i: int| 0 <= i < l.num_slabs implies (#[trigger] s1.stack[i]).len()
                <= l.slab_size / 256 by {
                let _ = s.stack[i];
            }
        }
        // If the slab is empty - remove it from the worker's partial list,
        // and move it to the worker's full list.
        if is_empty {
            let partial = self.worker_local_list_partial(size_index);
            let full = self.worker_local_list_full(size_index);
            self.move_slab(
                mem,
                &partial,
                &full,
                slab_index,
                Ghost(s1),
                Ghost(s.places()),
                Ghost(2 * class),
                Ghost(2 * class + 1),
            );
            proof {
                s1 = s1.unlinked(list_id(w, class, false), slab).pushed(
                    list_id(w, class, true),
                    slab,
                );
            }
        }
        match maybe_index_within_slab {
            None => None,
            Some(index_within_slab) => {
                let slab_offset = self.slab(slab_index);
                let size = size_class_unchecked(size_index);
                let ghost m2 = mem@;
                proof {
                    l.lemma_read_worker(m2, s1, w);
                }
                let at = self.worker_meta().outstanding_allocation_bytes;
                let outstanding = load_u64(mem, at);
                store_u64(mem, at, outstanding + size as u64);
                proof {
                    l.lemma_holds_worker(m2, mem@, s1, w, OUTSTANDING as int, 8);
                    self.base.lemma_in_order(m0, mem@, s.pop_slot(slab));
                    vstd::arithmetic::mul::lemma_mul_nonnegative(slab, l.slab_size as int);
                    vstd::arithmetic::mul::lemma_mul_nonnegative(index, size as int);
                }
                Some(
                    self.ptr_from_offset(
                        slab_offset + index_within_slab as usize * size as usize,
                    ),
                )
            },
        }
    }
}

} // verus!
