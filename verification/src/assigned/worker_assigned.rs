//! The handle of a worker that was assigned from outside.
use crate::assigned::global_free_stack::return_the_slab;
use crate::assigned::header::Header;
use crate::assigned::raw_allocator::RawAllocator;
use crate::assigned::region::{AssignedState, RawLayout, GLOBAL_FREE_STACK, STACK};
use crate::assigned::remote_free_stack::slot_thread;
use crate::assigned::worker_local_list::WorkerLocalList;
use crate::index::NULL_U32;
use crate::size_classes::{
    class_bytes, class_of, size_class, size_class_index, MAX_SIZE, NUM_SIZE_CLASSES,
};
use crate::region::serves;
use crate::slots::lemma_slots;
use crate::state::{list_id, placed};
use crate::transitions::{lemma_placed_push, lemma_placed_unlink};
use vstd::arithmetic::div_mod::*;
use vstd::prelude::*;

verus! {

/// A handle of a worker, which can allocate and free.
#[derive(Debug, PartialEq, Eq, Structural)]
pub struct WorkerAssignedAllocator {
    pub allocator: RawAllocator,
    pub worker_index: u32,
}

impl WorkerAssignedAllocator {
    /// Where things lie in the region.
    pub open spec fn layout(self, mem: Seq<u8>) -> RawLayout {
        self.allocator.layout(mem)
    }

    /// The state that the region holds.
    pub open spec fn state(self, mem: Seq<u8>) -> AssignedState {
        self.allocator.state(mem)
    }

    /// The region has this worker, and everything in it is as it should be.
    pub open spec fn valid(self, mem: Seq<u8>) -> bool {
        &&& self.allocator.valid(mem)
        &&& self.worker_index < self.layout(mem).num_workers
    }

    /// The handle of a worker, which the region must have.
    pub fn new(allocator: RawAllocator, worker_index: u32, mem: &[u8]) -> (result: Self)
        requires
            mem@.len() >= 128,
            worker_index < allocator.layout(mem@).num_workers,
        ensures
            result.allocator == allocator,
            result.worker_index == worker_index,
    {
        WorkerAssignedAllocator { allocator, worker_index }
    }

    /// A slab moves from one list of this worker to the front of another.
    fn move_slab(
        &self,
        mem: &mut [u8],
        from: &WorkerLocalList,
        to: &WorkerLocalList,
        slab_index: u32,
        Ghost(l): Ghost<RawLayout>,
        Ghost(s): Ghost<AssignedState>,
        Ghost(places): Ghost<Seq<int>>,
        Ghost(kf): Ghost<int>,
        Ghost(kt): Ghost<int>,
    )
        requires
            l.holds(old(mem)@, s),
            l.stacks_fit(s.stack),
            l.reach(s),
            self.worker_index < l.num_workers,
            0 <= kf < 10,
            0 <= kt < 10,
            kf != kt,
            *from == l.local_list(self.worker_index as int, kf),
            *to == l.local_list(self.worker_index as int, kt),
            placed(places, s.lists),
            places.len() == l.num_slabs,
            slab_index < places.len(),
            places[slab_index as int] == 1 + 10 * self.worker_index + kf,
            s.lists.len() == 1 + 10 * l.num_workers,
            forall|k: int| 0 <= k < s.lists.len() ==> (#[trigger] s.lists[k]).no_duplicates(),
        ensures
            l.holds(
                final(mem)@,
                AssignedState {
                    lists: s.lists.update(
                        1 + 10 * self.worker_index + kf,
                        s.lists[1 + 10 * self.worker_index + kf].remove(
                            s.lists[1 + 10 * self.worker_index + kf].index_of(slab_index),
                        ),
                    ).update(
                        1 + 10 * self.worker_index + kt,
                        seq![slab_index] + s.lists[1 + 10 * self.worker_index + kt],
                    ),
                    ..s
                },
            ),
            l.only_tables(old(mem)@, final(mem)@),
    {
        let ghost w = self.worker_index as int;
        let ghost idf = 1 + 10 * w + kf;
        let ghost idt = 1 + 10 * w + kt;
        let ghost m0 = mem@;
        proof {
            l.lemma_ready_local(m0, s, w, kf);
            lemma_placed_unlink(places, s.lists, idf, slab_index as int);
        }
        from.remove(mem, slab_index);
        let ghost m1 = mem@;
        let ghost s1 = AssignedState {
            lists: s.lists.update(
                idf,
                s.lists[idf].remove(s.lists[idf].index_of(slab_index)),
            ),
            ..s
        };
        let ghost places1 = places.update(slab_index as int, -1);
        proof {
            l.lemma_holds_local(m0, m1, s, w, kf, places, slab_index);
            l.lemma_ready_local(m1, s1, w, kt);
            assert(s1.lists[idt] == s.lists[idt]);
            lemma_placed_push(places1, s1.lists, idt, slab_index as int);
        }
        to.push(mem, slab_index);
        proof {
            l.lemma_holds_local(m1, mem@, s1, w, kt, places1, slab_index);
        }
    }

    /// Allocates a block of memory of the given size.
    /// If the size is larger than the maximum size class, or no slab has room, returns
    /// `None`.
    pub fn allocate(&self, mem: &mut [u8], size: u32) -> (ptr: Option<usize>)
        requires
            self.valid(old(mem)@),
            size <= MAX_SIZE ==> serves(
                self.layout(old(mem)@).slab_size as int,
                class_of(size as int),
            ) || !self.state(old(mem)@).can_allocate(
                self.worker_index as int,
                class_of(size as int),
            ),
        ensures
            self.valid(final(mem)@),
            self.layout(final(mem)@) == self.layout(old(mem)@),
            ptr is None <==> (size > MAX_SIZE || !self.state(old(mem)@).can_allocate(
                self.worker_index as int,
                class_of(size as int),
            )),
            ptr is Some <==> size <= 4096 && ((exists|i: int|
                0 <= i < self.layout(old(mem)@).num_slabs && #[trigger] self.state(
                    old(mem)@,
                ).assigned[i] == NULL_U32) || (exists|i: int|
                0 <= i < self.layout(old(mem)@).num_slabs && self.state(old(mem)@).assigned[i]
                    == self.worker_index && self.state(old(mem)@).class[i] == class_of(size as int)
                    && (#[trigger] self.state(old(mem)@).stack[i]).len() > 0)),
            ptr is None ==> final(mem)@ == old(mem)@,
            ptr matches Some(p) ==> {
                let l = self.layout(old(mem)@);
                let s = self.state(old(mem)@);
                let w = self.worker_index as int;
                let class = class_of(size as int);
                &&& p == self.allocator.header + s.next_allocation(l, w, class)
                &&& self.state(final(mem)@) == s.allocate(l, w, class)
                &&& l.slab_offset <= p - self.allocator.header
                &&& p - self.allocator.header + class_bytes(class) <= old(mem)@.len()
                &&& size <= class_bytes(class)
                &&& !self.allocator.live(old(mem)@).contains(p - self.allocator.header)
                &&& self.allocator.live(final(mem)@) == self.allocator.live(old(mem)@).insert(
                    p - self.allocator.header,
                )
            },
            self.layout(old(mem)@).only_tables(old(mem)@, final(mem)@),
    {
        proof {
            if size <= 4096 {
                crate::assigned::effects::law_served_while_memory_is_left(
                    self.layout(mem@),
                    self.state(mem@),
                    self.worker_index as int,
                    size as int,
                );
            }
        }
        if size > MAX_SIZE {
            return None;
        }
        let size_class_index = match size_class_index(size) {
            Some(index) => index,
            None => {
                return None;
            },
        };
        let ghost m0 = mem@;
        let ghost l = self.layout(m0);
        let ghost s0 = self.state(m0);
        let ghost w = self.worker_index as int;
        let ghost class = size_class_index as int;
        let ghost id = list_id(w, class, false);
        proof {
            l.lemma_bounds();
            l.lemma_ok(s0);
            l.lemma_ready_local(m0, s0, w, 2 * class);
        }
        // Check if there is a partial slab available for this size class.
        let partial = self.allocator.partial_list(mem, self.worker_index, size_class_index);
        let slab_index = match partial.head(mem) {
            Some(slab_index) => {
                proof {
                    assert(s0.lists[id][0] == slab_index);
                    assert(s0.slabs_state(l).places()[slab_index as int] == id);
                    assert(s0.slabs_state(l).slab_ok(l.slabs(), slab_index as int));
                }
                slab_index
            },
            None => {
                // No partial slab available, try to take a free slab.
                if !self.allocator.take_free_slab(mem, self.worker_index, size_class_index) {
                    return None;  // No free slab available.
                }
                proof {
                    s0.lemma_take_slab(l, w, class);
                    l.lemma_ready_local(mem@, s0.take_slab(l, w, class), w, 2 * class);
                }
                match partial.head(mem) {
                    Some(slab_index) => slab_index,
                    None => {
                        return None;
                    },
                }
            },
        };
        // At this point, we have a partial slab available.
        proof {
            crate::assigned::laws::law_allocate(l, s0, w, size as int);
        }
        self.allocate_in_slab(mem, slab_index, size_class_index)
    }

    /// Allocates the next free slot of a slab of this worker, which has one.
    fn allocate_in_slab(&self, mem: &mut [u8], slab_index: u32, size_class_index: usize) -> (ptr:
        Option<usize>)
        requires
            self.valid(old(mem)@),
            size_class_index < NUM_SIZE_CLASSES,
            ({
                let id = list_id(self.worker_index as int, size_class_index as int, false);
                &&& self.state(old(mem)@).lists[id].len() > 0
                &&& self.state(old(mem)@).lists[id][0] == slab_index
            }),
        ensures
            self.valid(final(mem)@),
            self.layout(final(mem)@) == self.layout(old(mem)@),
            ptr matches Some(p) && p == self.allocator.header + self.layout(old(mem)@).slabs().slot(
                slab_index as int,
                size_class_index as int,
                self.state(old(mem)@).stack[slab_index as int].last() as int,
            ),
            self.state(final(mem)@) == self.state(old(mem)@).pop_slot(
                self.layout(old(mem)@),
                slab_index as int,
            ),
            self.layout(old(mem)@).only_tables(old(mem)@, final(mem)@),
    {
        let ghost w = self.worker_index as int;
        let ghost class = size_class_index as int;
        let ghost id = list_id(w, class, false);
        let ghost m1 = mem@;
        let ghost l = self.layout(m1);
        let ghost s = self.state(m1);
        let ghost slab = slab_index as int;
        let ghost index = s.stack[slab].last() as int;
        let ghost off = l.slabs().slot(slab, class, index);
        let ghost places = s.slabs_state(l).places();
        proof {
            l.lemma_bounds();
            l.lemma_ok(s);
            assert(s.lists[id][0] == slab_index);
            assert(places[slab] == id);
            assert(s.slabs_state(l).slab_ok(l.slabs(), slab));
            l.lemma_read_meta(m1, s, slab);
            s.lemma_pop_slot(l, slab);
            l.lemma_slab_within(slab);
        }
        // Pop an item from the free stack of the slab.
        let free_stack = self.allocator.slab_meta(mem, slab_index).free_stack();
        let allocation_index_in_slab = match free_stack.pop(mem) {
            Some(index) => index,
            None => {
                return None;
            },
        };
        let is_empty = free_stack.is_empty(mem);
        let ghost m2 = mem@;
        let ghost s1 = AssignedState {
            stack: s.stack.update(slab, s.stack[slab].drop_last()),
            ..s
        };
        proof {
            let at = l.meta_at(slab);
            Header::lemma_same(m1, m2);
            l.lemma_row_words(m1, m2, s, slab, STACK as int);
            l.lemma_thread_kept(m1, m2, s, slab);
            l.lemma_holds_row(m1, m2, s, slab, s.remote[slab]);
            assert(s.assigned.update(slab, s.assigned[slab]) =~= s.assigned);
            assert(s.class.update(slab, s.class[slab]) =~= s.class);
            assert(s.remote.update(slab, s.remote[slab]) =~= s.remote);
            assert forall|i: int| 0 <= i < l.num_slabs implies (#[trigger] s1.stack[i]).len()
                <= l.slab_size / 256 by {
                let _ = s.stack[i];
            }
        }
        // If the free stack is now empty, move the slab to the full list.
        if is_empty {
            let partial = self.allocator.partial_list(mem, self.worker_index, size_class_index);
            let full = self.allocator.full_list(mem, self.worker_index, size_class_index);
            self.move_slab(
                mem,
                &partial,
                &full,
                slab_index,
                Ghost(l),
                Ghost(s1),
                Ghost(places),
                Ghost(2 * class),
                Ghost(2 * class + 1),
            );
        }
        proof {
            let after = s.pop_slot(l, slab);
            if s.stack[slab].len() == 1 {
                assert(after.lists =~= s.lists.update(
                    id,
                    s.lists[id].remove(s.lists[id].index_of(slab_index)),
                ).update(
                    list_id(w, class, true),
                    seq![slab_index] + s.lists[list_id(w, class, true)],
                ));
            }
            self.allocator.lemma_valid(m1, mem@, after);
            vstd::arithmetic::mul::lemma_mul_nonnegative(index, class_bytes(class));
        }
        let slab_offset = self.allocator.slab(mem, slab_index);
        let offset = allocation_index_in_slab as usize * size_class(size_class_index) as usize;
        Some(self.allocator.offset_to_ptr(slab_offset + offset))
    }

    /// Puts a slot of a slab of this worker back.
    pub fn local_free(&self, mem: &mut [u8], slab_index: u32, allocation_index_in_slab: u16)
        requires
            self.valid(old(mem)@),
            slab_index < self.layout(old(mem)@).num_slabs,
            ({
                let s = self.state(old(mem)@);
                let slab = slab_index as int;
                &&& s.assigned[slab] == self.worker_index
                &&& allocation_index_in_slab < s.capacity(self.layout(old(mem)@), slab)
                &&& !s.stack[slab].contains(allocation_index_in_slab)
                &&& !s.remote[slab].contains(allocation_index_in_slab as int)
            }),
        ensures
            self.valid(final(mem)@),
            self.layout(final(mem)@) == self.layout(old(mem)@),
            self.state(final(mem)@) == self.state(old(mem)@).put_slot(
                self.layout(old(mem)@),
                slab_index as int,
                allocation_index_in_slab as int,
            ),
            self.layout(old(mem)@).only_tables(old(mem)@, final(mem)@),
    {
        let ghost m0 = mem@;
        let ghost l = self.layout(m0);
        let ghost s = self.state(m0);
        let ghost w = self.worker_index as int;
        let ghost slab = slab_index as int;
        let ghost index = allocation_index_in_slab as int;
        let ghost class = s.class[slab] as int;
        let ghost places = s.slabs_state(l).places();
        let ghost partial_id = list_id(w, class, false);
        let ghost full_id = list_id(w, class, true);
        let ghost after = s.put_slot(l, slab, index);
        proof {
            l.lemma_bounds();
            l.lemma_ok(s);
            l.lemma_read_meta(m0, s, slab);
            assert(s.slabs_state(l).slab_ok(l.slabs(), slab));
            assert(places[slab] == s.slabs_state(l).place(slab));
            lemma_slots(l.slab_size as int, class);
            s.lemma_put_slot(l, slab, index);
        }
        let slab_meta = self.allocator.slab_meta(mem, slab_index);
        let size_class_index = slab_meta.size_class_index(mem);
        let slab_size = self.allocator.header(mem).slab_size;
        let slab_size_class = size_class(size_class_index);
        let free_stack = slab_meta.free_stack();
        free_stack.push(mem, allocation_index_in_slab);
        let free_stack_capacity = slab_size / slab_size_class;
        let free_stack_len = free_stack.len(mem);
        let ghost m1 = mem@;
        let ghost s1 = AssignedState {
            stack: s.stack.update(slab, s.stack[slab].push(index as u16)),
            ..s
        };
        proof {
            Header::lemma_same(m0, m1);
            l.lemma_row_words(m0, m1, s, slab, STACK as int);
            l.lemma_thread_kept(m0, m1, s, slab);
            l.lemma_holds_row(m0, m1, s, slab, s.remote[slab]);
            assert(s.assigned.update(slab, s.assigned[slab]) =~= s.assigned);
            assert(s.class.update(slab, s.class[slab]) =~= s.class);
            assert(s.remote.update(slab, s.remote[slab]) =~= s.remote);
            assert forall|i: int| 0 <= i < l.num_slabs implies (#[trigger] s1.stack[i]).len()
                <= l.slab_size / 256 by {
                let _ = s.stack[i];
            }
        }
        // If the free stack was empty before this push, we must:
        // 1. Remove the slab from the full list.
        // 2. Push the slab onto the worker's partial list.
        if free_stack_len == 1 {
            let full = self.allocator.full_list(mem, self.worker_index, size_class_index);
            let partial = self.allocator.partial_list(mem, self.worker_index, size_class_index);
            self.move_slab(
                mem,
                &full,
                &partial,
                slab_index,
                Ghost(l),
                Ghost(s1),
                Ghost(places),
                Ghost(2 * class + 1),
                Ghost(2 * class),
            );
            proof {
                assert(after.lists =~= s.lists.update(
                    full_id,
                    s.lists[full_id].remove(s.lists[full_id].index_of(slab_index)),
                ).update(partial_id, seq![slab_index] + s.lists[partial_id]));
            }
        }
        // If the free stack is now full (i.e. the slab is empty), we must:
        // 1. Remove the slab from the partial list.
        // 2. Push the slab onto the global free stack.
         else if free_stack_len as u32 == free_stack_capacity {
            let partial = self.allocator.partial_list(mem, self.worker_index, size_class_index);
            proof {
                l.lemma_ready_local(m1, s1, w, 2 * class);
                lemma_placed_unlink(places, s1.lists, partial_id, slab);
            }
            partial.remove(mem, slab_index);
            let ghost m2 = mem@;
            let ghost s2 = AssignedState {
                lists: s1.lists.update(
                    partial_id,
                    s1.lists[partial_id].remove(s1.lists[partial_id].index_of(slab_index)),
                ),
                ..s1
            };
            proof {
                l.lemma_holds_local(m1, m2, s1, w, 2 * class, places, slab_index);
                Header::lemma_same(m1, m2);
                l.lemma_read_global(m2, s2);
                l.lemma_meta_within(slab);
            }
            return_the_slab(&self.allocator, mem, slab_index);
            proof {
                l.lemma_holds_return(m2, mem@, s2, places.update(slab, -1), slab);
                assert(s2.lists[0] == s.lists[0]);
                assert(s.remote[slab] =~= Seq::empty());
                assert(s.remote.update(slab, Seq::empty()) =~= s.remote);
                assert(after.lists =~= s2.lists.update(0, seq![slab as u32] + s.lists[0]));
            }
        }
        proof {
            self.allocator.lemma_valid(m0, mem@, after);
        }
    }

    /// Free an allocated pointer: one in use, in a slab of this worker or of another.
    pub fn free(&self, mem: &mut [u8], ptr: usize)
        requires
            self.allocator.valid(old(mem)@),
            self.allocator.live(old(mem)@).contains(ptr - self.allocator.header),
        ensures
            self.allocator.valid(final(mem)@),
            self.layout(final(mem)@) == self.layout(old(mem)@),
            self.state(final(mem)@) == self.state(old(mem)@).free(
                self.layout(old(mem)@),
                self.worker_index as int,
                ptr - self.allocator.header,
            ),
            self.allocator.live(final(mem)@) == self.allocator.live(old(mem)@).remove(
                ptr - self.allocator.header,
            ),
            final(mem)@.len() == old(mem)@.len(),
            forall|i: int|
                (0 <= i < GLOBAL_FREE_STACK || self.layout(old(mem)@).slab_offset <= i
                    < old(mem)@.len()) && !(ptr - self.allocator.header <= i < ptr
                    - self.allocator.header + 4) ==> #[trigger] final(mem)@[i] == old(mem)@[i],
    {
        let ghost m0 = mem@;
        let ghost l = self.layout(m0);
        let ghost s = self.state(m0);
        let ghost off = ptr - self.allocator.header;
        let ghost slab = l.slabs().slab_of(off);
        let ghost index = s.slabs_state(l).index_in_slab(l.slabs(), off);
        let ghost class = s.class[slab] as int;
        proof {
            l.lemma_bounds();
            l.lemma_ok(s);
            s.slabs_state(l).lemma_slot(l.slabs(), off);
            s.lemma_remote_free(l, off);
            crate::assigned::laws::law_free(l, s, self.worker_index as int, off);
            l.lemma_read_meta(m0, s, slab);
            l.lemma_slot_at(slab, class, index);
            l.lemma_slab_within(slab);
        }
        let offset = self.allocator.ptr_to_offset(ptr);
        let header = self.allocator.header(mem);
        let offset_from_slab_section_start = offset - header.slab_offset as usize;
        let slab_index = (offset_from_slab_section_start / header.slab_size as usize) as u32;
        proof {
            lemma_fundamental_div_mod(
                offset_from_slab_section_start as int,
                header.slab_size as int,
            );
            vstd::arithmetic::mul::lemma_mul_is_commutative(
                header.slab_size as int,
                slab_index as int,
            );
        }
        let offset_from_slab_start = offset_from_slab_section_start - (slab_index as usize
            * header.slab_size as usize);
        // We now know the slab index - we can get the slab metadata.
        let slab_meta = self.allocator.slab_meta(mem, slab_index);
        let size_class_index = slab_meta.size_class_index(mem);
        let slab_size_class = size_class(size_class_index);
        let allocation_index_in_slab = (offset_from_slab_start / slab_size_class as usize) as u16;
        // Check if the slab is assigned to this worker.
        if slab_meta.assigned_worker(mem) != self.worker_index {
            let slab_offset = self.allocator.slab(mem, slab_index);
            let remote = slab_meta.remote_free_stack();
            proof {
                l.lemma_remote_ready(m0, s, slab, index);
            }
            remote.push(mem, allocation_index_in_slab as u32, slab_size_class, slab_offset);
            proof {
                l.lemma_holds_remote_push(m0, mem@, s, slab, index);
                self.allocator.lemma_valid(m0, mem@, s.remote_free(slab, index));
            }
            return ;
        }
        // Local free - push the item back to the slab's free stack.
        self.local_free(mem, slab_index, allocation_index_in_slab);
    }

    /// Puts back the slots of a slab of this worker that others have freed.
    fn drain_slab(&self, mem: &mut [u8], slab_index: u32)
        requires
            self.valid(old(mem)@),
            slab_index < self.layout(old(mem)@).num_slabs,
            self.state(old(mem)@).assigned[slab_index as int] == self.worker_index,
        ensures
            self.valid(final(mem)@),
            self.layout(final(mem)@) == self.layout(old(mem)@),
            self.state(final(mem)@) == self.state(old(mem)@).drain_slab(
                self.layout(old(mem)@),
                slab_index as int,
            ),
            forall|i: int|
                0 <= i < self.layout(old(mem)@).num_slabs && i != slab_index ==> #[trigger] self.state(
                    final(mem)@,
                ).assigned[i] == self.state(old(mem)@).assigned[i],
            self.layout(old(mem)@).only_tables(old(mem)@, final(mem)@),
    {
        let ghost m0 = mem@;
        let ghost l = self.layout(m0);
        let ghost s0 = self.state(m0);
        let ghost slab = slab_index as int;
        let ghost mut rest = s0.remote[slab];
        let ghost class = s0.class[slab] as int;
        let ghost goal = s0.drain_slab(l, slab);
        proof {
            l.lemma_bounds();
            l.lemma_ok(s0);
            s0.lemma_without_remote(l, slab);
            assert(s0.slabs_state(l).slab_ok(l.slabs(), slab));
            lemma_slots(l.slab_size as int, class);
        }
        let mut iter = self.allocator.drain_remote_frees(mem, slab_index);
        let ghost m1 = mem@;
        loop
            invariant_except_break
                self.valid(mem@),
                self.layout(mem@) == l,
                l.wf(),
                l.only_tables(m1, mem@),
                l.only_tables(m0, mem@),
                0 <= slab < l.num_slabs,
                slab == slab_index,
                0 <= class < NUM_SIZE_CLASSES,
                l.slabs().slots(class) <= u16::MAX,
                self.state(mem@).class[slab] == class,
                self.state(mem@).remote[slab] == Seq::<int>::empty(),
                self.state(mem@).put_all(l, slab, rest) == goal,
                iter.slab == l.slab_at(slab),
                iter.slab_item_size == class_bytes(class),
                iter.yields(mem@, rest),
                rest.no_duplicates(),
                rest.len() > 0 ==> self.state(mem@).assigned[slab] == self.worker_index,
                forall|j: int|
                    0 <= j < rest.len() ==> 0 <= #[trigger] rest[j] < l.slabs().slots(class)
                        && !self.state(mem@).stack[slab].contains(rest[j] as u16),
                forall|i: int|
                    0 <= i < l.num_slabs && i != slab ==> #[trigger] self.state(mem@).assigned[i]
                        == s0.assigned[i],
            ensures
                self.valid(mem@),
                self.layout(mem@) == l,
                self.state(mem@) == goal,
                l.only_tables(m0, mem@),
                forall|i: int|
                    0 <= i < l.num_slabs && i != slab ==> #[trigger] self.state(mem@).assigned[i]
                        == s0.assigned[i],
            decreases rest.len(),
        {
            let ghost m2 = mem@;
            let ghost s = self.state(m2);
            let ghost th = slot_thread(l.slab_at(slab), class_bytes(class));
            proof {
                l.lemma_bounds();
                th.lemma_empty(m2, iter.current as int, rest);
                if rest.len() > 0 {
                    assert(0 <= rest[0] < l.slabs().slots(class));
                    assert(rest[0] == iter.current);
                    l.lemma_slot_at(slab, class, rest[0]);
                }
            }
            match iter.next(mem) {
                None => {
                    break;
                },
                Some(index) => {
                    let ghost tail = rest.drop_first();
                    let ghost next = s.put_slot(l, slab, index as int);
                    proof {
                        assert(rest[0] == index);
                        s.lemma_put_slot(l, slab, index as int);
                        assert forall|j: int| 0 <= j < tail.len() implies 0 <= #[trigger] tail[j]
                            < l.slabs().slots(class) && !next.stack[slab].contains(
                            tail[j] as u16,
                        ) && next.assigned[slab] == self.worker_index by {
                            assert(tail[j] == rest[j + 1]);
                            assert(rest[j + 1] != rest[0]);
                            s.lemma_put_keeps(l, slab, index as int, tail[j]);
                        }
                        if tail.len() > 0 {
                            let _ = tail[0];
                        }
                    }
                    self.local_free(mem, slab_index, index as u16);
                    proof {
                        assert forall|x: int| tail.contains(x) implies #[trigger] th.next(mem@, x)
                            == th.next(m2, x) by {
                            let j = tail.index_of(x);
                            assert(0 <= tail[j] < l.slabs().slots(class));
                            l.lemma_slot_at(slab, class, x);
                            crate::memory::lemma_word_same(m2, mem@, th.slot(x), 4);
                        }
                        th.lemma_frame(m2, mem@, iter.current as int, tail);
                        rest = tail;
                    }
                },
            }
        }
    }

    /// Puts back the slots that others have freed, for each slab of a list of this worker.
    fn drain_slabs(&self, mem: &mut [u8], slabs: &Vec<u32>)
        requires
            self.valid(old(mem)@),
            slabs@.no_duplicates(),
            forall|j: int|
                0 <= j < slabs@.len() ==> (#[trigger] slabs@[j]) < self.layout(old(mem)@).num_slabs
                    && self.state(old(mem)@).assigned[slabs@[j] as int] == self.worker_index,
        ensures
            self.valid(final(mem)@),
            self.layout(final(mem)@) == self.layout(old(mem)@),
            self.state(final(mem)@) == self.state(old(mem)@).drain_slabs(
                self.layout(old(mem)@),
                slabs@,
            ),
            self.layout(old(mem)@).only_tables(old(mem)@, final(mem)@),
    {
        let ghost m0 = mem@;
        let ghost l = self.layout(m0);
        let ghost goal = self.state(m0).drain_slabs(l, slabs@);
        let mut i: usize = 0;
        assert(slabs@.skip(0) =~= slabs@);
        while i < slabs.len()
            invariant
                i <= slabs@.len(),
                self.valid(mem@),
                self.layout(mem@) == l,
                slabs@.no_duplicates(),
                forall|j: int|
                    i <= j < slabs@.len() ==> (#[trigger] slabs@[j]) < l.num_slabs && self.state(
                        mem@,
                    ).assigned[slabs@[j] as int] == self.worker_index,
                self.state(mem@).drain_slabs(l, slabs@.skip(i as int)) == goal,
                l.only_tables(m0, mem@),
            decreases slabs@.len() - i,
        {
            let ghost rest = slabs@.skip(i as int);
            assert(rest[0] == slabs@[i as int]);
            assert(rest.drop_first() =~= slabs@.skip(i + 1));
            self.drain_slab(mem, slabs[i]);
            i = i + 1;
        }
        assert(slabs@.skip(i as int).len() == 0);
    }

    /// The slabs of a list of this worker are its own.
    proof fn lemma_own(self, mem: Seq<u8>, class: int, full: bool)
        requires
            self.valid(mem),
            0 <= class < NUM_SIZE_CLASSES,
        ensures
            ({
                let list = self.state(mem).lists[list_id(self.worker_index as int, class, full)];
                &&& list.no_duplicates()
                &&& forall|j: int|
                    0 <= j < list.len() ==> (#[trigger] list[j]) < self.layout(mem).num_slabs
                        && self.state(mem).assigned[list[j] as int] == self.worker_index
            }),
    {
        let l = self.layout(mem);
        let s = self.state(mem);
        let slabs = s.slabs_state(l);
        let id = list_id(self.worker_index as int, class, full);
        l.lemma_ok(s);
        let list = s.lists[id];
        assert forall|j: int| 0 <= j < list.len() implies (#[trigger] list[j]) < l.num_slabs
            && s.assigned[list[j] as int] == self.worker_index by {
            assert(slabs.lists[id][j] == list[j]);
            assert(slabs.places()[list[j] as int] == id);
            assert(slabs.slab_ok(l.slabs(), list[j] as int));
        }
    }

    /// Puts back the slots that others have freed in this worker's slabs of a class.
    pub fn drain_remote_frees_for_size_class(&self, mem: &mut [u8], size_class_index: u8)
        requires
            self.valid(old(mem)@),
            size_class_index < NUM_SIZE_CLASSES,
        ensures
            self.valid(final(mem)@),
            self.layout(final(mem)@) == self.layout(old(mem)@),
            self.state(final(mem)@) == self.state(old(mem)@).drain_class(
                self.layout(old(mem)@),
                self.worker_index as int,
                size_class_index as int,
            ),
            self.allocator.live(final(mem)@) == self.allocator.live(old(mem)@),
            self.layout(old(mem)@).only_tables(old(mem)@, final(mem)@),
    {
        let ghost m0 = mem@;
        let ghost l = self.layout(m0);
        let ghost w = self.worker_index as int;
        let ghost class = size_class_index as int;
        proof {
            crate::assigned::laws::law_drain_class(l, self.state(m0), w, class);
            l.lemma_bounds();
            l.lemma_ready_local(m0, self.state(m0), w, 2 * class);
            self.lemma_own(m0, class, false);
        }
        let partial = self.allocator.partial_list(mem, self.worker_index, size_class_index as usize);
        let slabs = partial.iterate(mem);
        self.drain_slabs(mem, &slabs);
        proof {
            l.lemma_ready_local(mem@, self.state(mem@), w, 2 * class + 1);
            self.lemma_own(mem@, class, true);
        }
        let full = self.allocator.full_list(mem, self.worker_index, size_class_index as usize);
        let slabs = full.iterate(mem);
        self.drain_slabs(mem, &slabs);
    }

    /// Drain all remote frees for this worker.
    pub fn drain_remote_frees(&self, mem: &mut [u8])
        requires
            self.valid(old(mem)@),
        ensures
            self.valid(final(mem)@),
            self.layout(final(mem)@) == self.layout(old(mem)@),
            self.state(final(mem)@) == self.state(old(mem)@).drain(
                self.layout(old(mem)@),
                self.worker_index as int,
                NUM_SIZE_CLASSES as int,
            ),
            self.allocator.live(final(mem)@) == self.allocator.live(old(mem)@),
            self.layout(old(mem)@).only_tables(old(mem)@, final(mem)@),
    {
        let ghost m0 = mem@;
        let ghost l = self.layout(m0);
        let ghost s0 = self.state(m0);
        proof {
            crate::assigned::laws::law_drain(l, s0, self.worker_index as int);
        }
        let mut size_index: u8 = 0;
        while (size_index as usize) < NUM_SIZE_CLASSES
            invariant
                size_index <= NUM_SIZE_CLASSES,
                self.valid(mem@),
                self.layout(mem@) == l,
                self.state(mem@) == s0.drain(l, self.worker_index as int, size_index as int),
                l.only_tables(m0, mem@),
            decreases NUM_SIZE_CLASSES - size_index,
        {
            self.drain_remote_frees_for_size_class(mem, size_index);
            size_index = size_index + 1;
        }
    }
}

} // verus!
