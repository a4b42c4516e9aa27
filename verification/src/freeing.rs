//! How allocations are given back.
use crate::allocator::{AllocationIndexes, Allocator, AllocatorBase, FreeOnlyAllocator};
use crate::index::{NULL_U32, NULL_U64};
use crate::memory::{load_u32, load_u64, store_u32, store_u64, u64_at};
use crate::region::{OUTSTANDING, REMOTE_HEAD};
use crate::state::{list_id, State};
use crate::transitions::{lemma_placed_push, lemma_placed_unlink};
use vstd::prelude::*;

verus! {

impl Allocator {
    /// Puts a slot back on the free stack of its slab, which belongs to this worker. A slab
    /// that was full moves to the partial list, and one that is now empty to the global free
    /// list.
    pub fn local_free_with_size_index(
        &self,
        mem: &mut [u8],
        allocation_indexes: AllocationIndexes,
        size_index: usize,
    )
        requires
            self.in_order(old(mem)@),
            allocation_indexes.slab_index < self.base.layout.num_slabs,
            ({
                let s = self.state(old(mem)@);
                let slab = allocation_indexes.slab_index as int;
                let off = s.slot_at(
                    self.base.layout,
                    slab,
                    allocation_indexes.index_within_slab as int,
                );
                &&& s.assigned[slab] == self.worker_index
                &&& s.class[slab] == size_index
                &&& allocation_indexes.index_within_slab < s.cap[slab]
                &&& s.is_taken(self.base.layout, off)
                &&& !s.is_pending(self.base.layout, off)
            }),
        ensures
            self.in_order(final(mem)@),
            self.state(final(mem)@) == self.state(old(mem)@).put_slot(
                allocation_indexes.slab_index as int,
                allocation_indexes.index_within_slab as int,
            ),
            self.base.layout.only_tables(old(mem)@, final(mem)@),
    {
        let ghost l = self.base.layout;
        let ghost m0 = mem@;
        let ghost s = self.state(m0);
        let ghost w = self.worker_index as int;
        let ghost class = size_index as int;
        let slab_index = allocation_indexes.slab_index;
        let ghost slab = slab_index as int;
        let ghost index = allocation_indexes.index_within_slab as int;
        let ghost off = s.slot_at(l, slab, index);
        let ghost places = s.places();
        proof {
            assert(s.slab_ok(l, slab));
            crate::slots::lemma_slots(l.slab_size as int, class);
            l.lemma_slot(slab, class, index);
            s.lemma_put_slot(l, off);
            self.base.lemma_fit(s);
            l.lemma_ready_stack(m0, s, slab);
            assert(places[slab] == s.place(slab));
        }
        let free_stack = self.slab_free_stack(slab_index);
        let was_full = free_stack.is_empty(mem);
        free_stack.push(mem, allocation_indexes.index_within_slab);
        // When the **free** stack is empty, the slab is full of allocations.
        // When the **free** stack is full, the slab has no allocations.
        let is_empty = free_stack.is_full(mem);
        let ghost m1 = mem@;
        let ghost s1 = State { stack: s.stack.update(slab, s.stack[slab].push(index as u16)), ..s };
        proof {
            l.lemma_holds_stack(m0, m1, s, slab, (s.stack[slab].len() + 1) as int);
            assert(s.cap.update(slab, s.cap[slab]) =~= s.cap);
            assert forall|i: int| 0 <= i < l.num_slabs implies (#[trigger] s1.stack[i]).len()
                <= l.slab_size / 256 by {
                let _ = s.stack[i];
            }
        }
        if was_full {
            // The slab was full and is now partially full. It must be moved
            // from the worker's full list to the worker's partial list.
            let full = self.worker_local_list_full(size_index);
            let partial = self.worker_local_list_partial(size_index);
            self.move_slab(
                mem,
                &full,
                &partial,
                slab_index,
                Ghost(s1),
                Ghost(places),
                Ghost(2 * class + 1),
                Ghost(2 * class),
            );
        } else if is_empty {
            // The slab was partially full and is now empty.
            // It must be moved from the worker's partial list to the global free list.
            let ghost id = list_id(w, class, false);
            proof {
                l.lemma_ready_local(m1, s1, w, 2 * class);
                lemma_placed_unlink(places, s1.lists, id, slab);
            }
            self.worker_local_list_partial(size_index).remove(mem, slab_index);
            let ghost m2 = mem@;
            let ghost s2 = s1.unlinked(id, slab);
            let ghost places2 = places.update(slab, -1);
            proof {
                l.lemma_holds_local(m1, m2, s1, w, 2 * class, places, slab_index);
            }
            store_u32(mem, self.slab_meta(slab_index).assigned_worker, NULL_U32);
            let ghost m3 = mem@;
            let ghost s3 = State { assigned: s2.assigned.update(slab, NULL_U32), ..s2 };
            proof {
                l.lemma_holds_meta(m2, m3, s2, slab);
                crate::memory::lemma_word_same(m2, m3, l.meta_at(slab) + 8, 8);
                l.lemma_read_meta(m2, s2, slab);
                assert(s2.class.update(slab, s2.class[slab]) =~= s2.class);
                l.lemma_ready_global(m3, s3);
                assert(s3.lists[0] == s.lists[0]);
                lemma_placed_push(places2, s3.lists, 0, slab);
            }
            self.global_free_list().push(mem, slab_index);
            proof {
                l.lemma_holds_global(m3, mem@, s3, slab);
            }
        }
        // Else the slab was partially full and is still partially full.
        proof {
            self.base.lemma_in_order(m0, mem@, s.put_slot(slab, index));
        }
    }

    /// Takes the bytes of an allocation off this worker's count.
    fn uncount(&self, mem: &mut [u8], size: u32, Ghost(s): Ghost<State>)
        requires
            self.base.layout.holds(old(mem)@, s),
            self.base.layout.stacks_fit(s.stack),
            self.worker_index < self.base.layout.num_workers,
            s.outstanding[self.worker_index as int] >= size,
        ensures
            self.base.layout.holds(
                final(mem)@,
                State {
                    outstanding: s.outstanding.update(
                        self.worker_index as int,
                        (s.outstanding[self.worker_index as int] - size) as u64,
                    ),
                    ..s
                },
            ),
            self.base.layout.only_tables(old(mem)@, final(mem)@),
    {
        let ghost m0 = mem@;
        let ghost l = self.base.layout;
        let ghost w = self.worker_index as int;
        proof {
            l.lemma_read_worker(m0, s, w);
        }
        let at = self.worker_meta().outstanding_allocation_bytes;
        let outstanding = load_u64(mem, at);
        store_u64(mem, at, outstanding - size as u64);
        proof {
            l.lemma_holds_worker(m0, mem@, s, w, OUTSTANDING as int, 8);
        }
    }

    /// Frees an allocation in a slab of this worker.
    pub fn free_local(&self, mem: &mut [u8], allocation_indexes: AllocationIndexes)
        requires
            self.valid(old(mem)@),
            allocation_indexes.slab_index < self.base.layout.num_slabs,
            ({
                let s = self.state(old(mem)@);
                let slab = allocation_indexes.slab_index as int;
                &&& s.assigned[slab] == self.worker_index
                &&& allocation_indexes.index_within_slab < s.cap[slab]
                &&& s.live(self.base.layout).contains(
                    s.slot_at(self.base.layout, slab, allocation_indexes.index_within_slab as int),
                )
            }),
        ensures
            self.valid(final(mem)@),
            self.state(final(mem)@) == self.state(old(mem)@).local_free(
                self.base.layout,
                self.state(old(mem)@).slot_at(
                    self.base.layout,
                    allocation_indexes.slab_index as int,
                    allocation_indexes.index_within_slab as int,
                ),
            ),
            self.base.layout.only_tables(old(mem)@, final(mem)@),
    {
        let ghost l = self.base.layout;
        let ghost m0 = mem@;
        let ghost s = self.state(m0);
        let ghost slab = allocation_indexes.slab_index as int;
        let ghost index = allocation_indexes.index_within_slab as int;
        let ghost off = s.slot_at(l, slab, index);
        let ghost s1 = s.uncount(l, off);
        proof {
            assert(s.slab_ok(l, slab));
            l.lemma_slot(slab, s.class[slab] as int, index);
            s.lemma_local_free(l, off);
            self.base.lemma_fit(s);
        }
        let (size_index, size) = self.slab_size_class(mem, allocation_indexes.slab_index);
        self.uncount(mem, size, Ghost(s));
        proof {
            s.lemma_same_ok(l, s1);
            self.base.lemma_in_order(m0, mem@, s1);
        }
        self.local_free_with_size_index(mem, allocation_indexes, size_index);
    }

    /// Free a block of memory previously allocated by this allocator: one in use, in a slab
    /// of this worker or of another.
    pub fn free_offset(&self, mem: &mut [u8], offset: usize)
        requires
            self.valid(old(mem)@),
            self.base.live(old(mem)@).contains(offset as int),
        ensures
            self.valid(final(mem)@),
            self.state(final(mem)@) == self.state(old(mem)@).free(
                self.base.layout,
                self.worker_index as int,
                offset as int,
            ),
            self.base.live(final(mem)@) == self.base.live(old(mem)@).remove(offset as int),
            self.base.layout.only_bytes(
                old(mem)@,
                final(mem)@,
                offset as int,
                offset + self.state(old(mem)@).link_bytes(
                    self.base.layout,
                    self.worker_index as int,
                    offset as int,
                ),
            ),
    {
        let ghost l = self.base.layout;
        let ghost s = self.state(mem@);
        proof {
            s.lemma_slot(l, offset as int);
            l.lemma_bounds();
            crate::laws::law_free(l, s, self.worker_index as int, offset as int);
        }
        let allocation_indexes = self.find_allocation_indexes(mem, offset);
        let ghost slab = l.slab_of(offset as int);
        proof {
            l.lemma_read_meta(mem@, s, slab);
        }
        // Check if the slab is assigned to this worker.
        if self.worker_index == load_u32(
            mem,
            self.slab_meta(allocation_indexes.slab_index).assigned_worker,
        ) {
            self.free_local(mem, allocation_indexes);
        } else {
            self.remote_free(mem, offset, allocation_indexes.slab_index);
        }
    }

    /// Free a block of memory previously allocated by this allocator.
    pub fn free(&self, mem: &mut [u8], ptr: usize)
        requires
            self.valid(old(mem)@),
            self.base.live(old(mem)@).contains(ptr - self.base.region.header),
        ensures
            self.valid(final(mem)@),
            self.state(final(mem)@) == self.state(old(mem)@).free(
                self.base.layout,
                self.worker_index as int,
                ptr - self.base.region.header,
            ),
            self.base.live(final(mem)@) == self.base.live(old(mem)@).remove(
                ptr - self.base.region.header,
            ),
            self.base.layout.only_bytes(
                old(mem)@,
                final(mem)@,
                ptr - self.base.region.header,
                ptr - self.base.region.header + self.state(old(mem)@).link_bytes(
                    self.base.layout,
                    self.worker_index as int,
                    ptr - self.base.region.header,
                ),
            ),
    {
        let offset = self.offset(ptr);
        self.free_offset(mem, offset);
    }

    fn remote_free(&self, mem: &mut [u8], offset: usize, slab_index: u32)
        requires
            self.base.valid(old(mem)@),
            self.base.live(old(mem)@).contains(offset as int),
            slab_index == self.base.layout.slab_of(offset as int),
        ensures
            self.base.valid(final(mem)@),
            self.state(final(mem)@) == self.state(old(mem)@).remote_free(
                self.state(old(mem)@).owner(self.base.layout, offset as int),
                seq![offset as int],
            ),
            self.base.live(final(mem)@) == self.base.live(old(mem)@).remove(offset as int),
            self.base.layout.only_bytes(old(mem)@, final(mem)@, offset as int, offset + 8),
    {
        self.base.remote_free(mem, offset, slab_index);
    }

    /// Find the offset given a pointer.
    pub fn offset(&self, ptr: usize) -> (offset: usize)
        requires
            self.base.region.header <= ptr,
        ensures
            offset == ptr - self.base.region.header,
    {
        self.base.offset(ptr)
    }

    /// Return a pointer given a shareable offset - calculated by `offset`.
    pub fn ptr_from_offset(&self, offset: usize) -> (ptr: usize)
        requires
            self.base.region.header + offset <= usize::MAX,
        ensures
            ptr == self.base.region.header + offset,
    {
        self.base.ptr_from_offset(offset)
    }

    /// Find the slab index and index within the slab for a given offset.
    pub fn find_allocation_indexes(&self, mem: &[u8], offset: usize) -> (indexes: AllocationIndexes)
        requires
            self.base.in_order(mem@),
            offset >= self.base.layout.slabs_offset,
            self.base.layout.slab_of(offset as int) < self.base.layout.num_slabs,
        ensures
            indexes.slab_index == self.base.layout.slab_of(offset as int),
            indexes.index_within_slab == self.state(mem@).index_in_slab(
                self.base.layout,
                offset as int,
            ),
    {
        self.base.find_allocation_indexes(mem, offset)
    }

    /// The bytes that this worker has handed out and not taken back.
    pub fn outstanding_allocation_bytes(&self, mem: &[u8]) -> (bytes: u64)
        requires
            self.valid(mem@),
        ensures
            bytes == self.state(mem@).outstanding[self.worker_index as int],
            bytes == self.state(mem@).used_bytes(
                self.worker_index as int,
                self.base.layout.num_slabs as int,
            ),
    {
        let ghost l = self.base.layout;
        let ghost w = self.worker_index as int;
        proof {
            l.lemma_read_worker(mem@, self.state(mem@), w);
        }
        load_u64(mem, self.worker_meta().outstanding_allocation_bytes)
    }

    /// Frees all remotely freed items queued for this worker.
    pub fn clean_remote_frees(&self, mem: &mut [u8])
        requires
            self.valid(old(mem)@),
        ensures
            self.valid(final(mem)@),
            self.state(final(mem)@) == self.state(old(mem)@).clean(
                self.base.layout,
                self.worker_index as int,
            ),
            self.base.live(final(mem)@) == self.base.live(old(mem)@),
            self.base.layout.only_tables(old(mem)@, final(mem)@),
    {
        let ghost l = self.base.layout;
        let ghost th = l.thread();
        let ghost m0 = mem@;
        let ghost s0 = self.state(m0);
        let ghost w = self.worker_index as int;
        let ghost list = s0.remote[w];
        proof {
            self.base.lemma_fit(s0);
            l.lemma_read_worker(m0, s0, w);
            th.lemma_empty(
                l.tables(m0).data,
                u64_at(m0, l.worker_at(w) + REMOTE_HEAD) as int,
                list,
            );
        }
        let at = self.worker_meta().remote_free_head;
        let mut offset: u64 = load_u64(mem, at);
        store_u64(mem, at, NULL_U64);
        let ghost mut s = State { remote: s0.remote.update(w, Seq::empty()), ..s0 };
        let ghost s1 = s;
        let ghost mut rest = list;
        proof {
            l.lemma_holds_remote_head(m0, mem@, s0, w, Seq::empty());
            s0.lemma_same_ok(l, s);
            self.base.lemma_in_order(m0, mem@, s);
        }
        while offset != NULL_U64
            invariant
                self.in_order(mem@),
                l == self.base.layout,
                th == l.thread(),
                w == self.worker_index,
                s == self.state(mem@),
                s.accounted(l),
                s.remote[w] == Seq::<int>::empty(),
                l.only_tables(m0, mem@),
                th.threads(l.tables(mem@).data, offset as int, rest),
                forall|j: int|
                    0 <= j < rest.len() ==> s.is_taken(l, #[trigger] rest[j]) && s.owner(l, rest[j])
                        == w,
                s.local_free_all(l, rest) == s1.local_free_all(l, list),
            decreases rest.len(),
        {
            let ghost m = mem@;
            let ghost t = l.tables(m);
            let ghost tail = rest.drop_first();
            let ghost off = offset as int;
            let ghost next = s.local_free(l, off);
            proof {
                th.lemma_empty(t.data, offset as int, rest);
                th.lemma_tail(t.data, offset as int, rest);
                assert(rest[0] == off);
                s.lemma_slot(l, off);
                s.lemma_local_free(l, off);
                l.lemma_bounds();
                l.lemma_link(m, off);
                self.base.lemma_fit(s);
                assert forall|j: int| 0 <= j < tail.len() implies next.is_taken(
                    l,
                    #[trigger] tail[j],
                ) && next.owner(l, tail[j]) == w by {
                    assert(tail[j] == rest[j + 1]);
                    assert(rest[j + 1] != rest[0]);
                    s.lemma_put_keeps(l, off, tail[j]);
                }
            }
            let next_offset = load_u64(mem, offset as usize);
            let allocation_indexes = self.find_allocation_indexes(mem, offset as usize);
            let (size_index, size) = self.slab_size_class(mem, allocation_indexes.slab_index);
            self.local_free_with_size_index(mem, allocation_indexes, size_index);
            let ghost mid = self.state(mem@);
            let ghost m2 = mem@;
            proof {
                self.base.lemma_fit(mid);
            }
            self.uncount(mem, size, Ghost(mid));
            proof {
                self.base.lemma_in_order(m2, mem@, next);
                l.lemma_data_same(m, mem@);
                rest = tail;
                s = next;
            }
            offset = next_offset;
        }
        proof {
            th.lemma_empty(l.tables(mem@).data, offset as int, rest);
            crate::laws::law_clean(l, s0, w);
        }
    }
}

impl AllocatorBase {
    /// Pushes an allocation offset onto the owning worker's remote-free list.
    pub fn remote_free(&self, mem: &mut [u8], offset: usize, slab_index: u32)
        requires
            self.valid(old(mem)@),
            self.live(old(mem)@).contains(offset as int),
            slab_index == self.layout.slab_of(offset as int),
        ensures
            self.valid(final(mem)@),
            self.state(final(mem)@) == self.state(old(mem)@).remote_free(
                self.state(old(mem)@).owner(self.layout, offset as int),
                seq![offset as int],
            ),
            self.live(final(mem)@) == self.live(old(mem)@).remove(offset as int),
            self.layout.only_bytes(old(mem)@, final(mem)@, offset as int, offset + 8),
    {
        let ghost l = self.layout;
        let ghost th = l.thread();
        let ghost m0 = mem@;
        let ghost s = self.state(m0);
        let ghost off = offset as int;
        let ghost w = s.owner(l, off);
        proof {
            s.lemma_slot(l, off);
            l.lemma_bounds();
            self.lemma_fit(s);
            l.lemma_read_meta(m0, s, slab_index as int);
            l.lemma_read_worker(m0, s, w);
        }
        let worker_index = load_u32(mem, self.slab_meta(slab_index).assigned_worker);
        if worker_index >= self.layout.num_workers {
            return;
        }
        let remote_free_head = self.worker_meta(worker_index).remote_free_head;
        let current_head = load_u64(mem, remote_free_head);
        store_u64(mem, offset, current_head);
        let ghost m1 = mem@;
        proof {
            assert forall|v: int, j: int|
                0 <= v < s.remote.len() && 0 <= j < s.remote[v].len() implies (
            #[trigger] s.remote[v][j] + 8 <= off || off + 8 <= s.remote[v][j]) && l.slabs_offset
                <= s.remote[v][j] && s.remote[v][j] + 8 <= l.end() by {
                let y = s.remote[v][j];
                assert(s.is_taken(l, y) && s.owner(l, y) == v);
                s.lemma_slot(l, y);
                assert(s.remote[v].contains(y));
                if y < off {
                    s.lemma_apart(l, y, off);
                } else if off < y {
                    s.lemma_apart(l, off, y);
                }
            }
            l.lemma_holds_data(m0, m1, s, off, off + 8);
            l.lemma_read_worker(m1, s, w);
            l.lemma_link(m1, off);
            let data = l.tables(m1).data;
            th.lemma_push(data, data, current_head as int, s.remote[w], off);
        }
        store_u64(mem, remote_free_head, offset as u64);
        proof {
            l.lemma_holds_remote_head(m1, mem@, s, w, seq![off] + s.remote[w]);
            let after = s.remote_free(w, seq![off]);
            s.lemma_remote_free(l, w, seq![off]);
            assert(s.live(l).difference(seq![off].to_set()) =~= s.live(l).remove(off)) by {
                assert(seq![off][0] == off);
            }
            self.lemma_in_order(m0, mem@, after);
        }
    }
}

impl FreeOnlyAllocator {
    /// The region is the one that the handle is for, and everything in it is as it should be.
    pub open spec fn valid(self, mem: Seq<u8>) -> bool {
        self.base.valid(mem)
    }

    /// The state that the region holds.
    pub open spec fn state(self, mem: Seq<u8>) -> State {
        self.base.state(mem)
    }

    /// Free a block of memory previously allocated by this allocator: whoever owns its slab
    /// reclaims it.
    pub fn free_offset(&self, mem: &mut [u8], offset: usize)
        requires
            self.valid(old(mem)@),
            self.base.live(old(mem)@).contains(offset as int),
        ensures
            self.valid(final(mem)@),
            self.state(final(mem)@) == self.state(old(mem)@).remote_free(
                self.state(old(mem)@).owner(self.base.layout, offset as int),
                seq![offset as int],
            ),
            self.base.live(final(mem)@) == self.base.live(old(mem)@).remove(offset as int),
            self.base.layout.only_bytes(old(mem)@, final(mem)@, offset as int, offset + 8),
    {
        proof {
            self.state(mem@).lemma_slot(self.base.layout, offset as int);
        }
        let allocation_indexes = self.find_allocation_indexes(mem, offset);
        self.base.remote_free(mem, offset, allocation_indexes.slab_index);
    }

    /// Free a block of memory previously allocated by this allocator.
    pub fn free(&self, mem: &mut [u8], ptr: usize)
        requires
            self.valid(old(mem)@),
            self.base.live(old(mem)@).contains(ptr - self.base.region.header),
        ensures
            self.valid(final(mem)@),
            self.state(final(mem)@) == self.state(old(mem)@).remote_free(
                self.state(old(mem)@).owner(self.base.layout, ptr - self.base.region.header),
                seq![ptr - self.base.region.header],
            ),
            self.base.live(final(mem)@) == self.base.live(old(mem)@).remove(
                ptr - self.base.region.header,
            ),
            self.base.layout.only_bytes(
                old(mem)@,
                final(mem)@,
                ptr - self.base.region.header,
                ptr - self.base.region.header + 8,
            ),
    {
        let offset = self.offset(ptr);
        self.free_offset(mem, offset);
    }

    /// Find the offset given a pointer.
    pub fn offset(&self, ptr: usize) -> (offset: usize)
        requires
            self.base.region.header <= ptr,
        ensures
            offset == ptr - self.base.region.header,
    {
        self.base.offset(ptr)
    }

    /// Return a pointer given a shareable offset - calculated by `offset`.
    pub fn ptr_from_offset(&self, offset: usize) -> (ptr: usize)
        requires
            self.base.region.header + offset <= usize::MAX,
        ensures
            ptr == self.base.region.header + offset,
    {
        self.base.ptr_from_offset(offset)
    }

    /// Find the slab index and index within the slab for a given offset.
    pub fn find_allocation_indexes(&self, mem: &[u8], offset: usize) -> (indexes: AllocationIndexes)
        requires
            self.base.in_order(mem@),
            offset >= self.base.layout.slabs_offset,
            self.base.layout.slab_of(offset as int) < self.base.layout.num_slabs,
        ensures
            indexes.slab_index == self.base.layout.slab_of(offset as int),
            indexes.index_within_slab == self.state(mem@).index_in_slab(
                self.base.layout,
                offset as int,
            ),
    {
        self.base.find_allocation_indexes(mem, offset)
    }
}

} // verus!
