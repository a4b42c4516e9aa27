//! What the region holds between operations, and what the operations do to it.
use crate::global_free_list::next_generation;
use crate::index::NULL_U32;
use crate::region::{serves, CachedLayout};
use crate::size_classes::{class_bytes, NUM_SIZE_CLASSES};
use vstd::prelude::*;

verus! {

/// The state of the allocator that all workers share.
pub struct State {
    /// How often slabs entered and left the global free list.
    pub generation: u32,
    /// The global free list, then the partial and the full list of each worker and class.
    pub lists: Seq<Seq<u32>>,
    /// The offsets of the allocations freed by others, for each worker.
    pub remote: Seq<Seq<int>>,
    /// Which worker slots are taken.
    pub claimed: Seq<u8>,
    /// The bytes that each worker has handed out.
    pub outstanding: Seq<u64>,
    /// The worker and size class of each slab.
    pub assigned: Seq<u32>,
    pub class: Seq<u64>,
    /// The head of each slab's own remote free list.
    pub slab_heads: Seq<u16>,
    /// The free slots of each slab, the next to be handed out last, and how many slots it has.
    pub stack: Seq<Seq<u16>>,
    pub cap: Seq<u16>,
}

/// Which list belongs to a worker and class; `full` tells its full from its partial list.
pub open spec fn list_id(worker: int, class: int, full: bool) -> int {
    1 + 10 * worker + 2 * class + if full {
        1int
    } else {
        0int
    }
}

/// Each slab is in the list that `places` names for it, and in no other; a slab without a
/// place is in none.
pub open spec fn placed(places: Seq<int>, lists: Seq<Seq<u32>>) -> bool {
    &&& forall|k: int, j: int|
        0 <= k < lists.len() && 0 <= j < lists[k].len() ==> (#[trigger] lists[k][j]) < places.len()
            && places[lists[k][j] as int] == k
    &&& forall|i: int|
        0 <= i < places.len() && places[i] != -1 ==> 0 <= #[trigger] places[i] < lists.len()
            && lists[places[i]].contains(i as u32)
}

/// The free slots of a slab from which nothing is taken.
pub open spec fn all_slots(n: int) -> Seq<u16> {
    Seq::new(n as nat, |i: int| (n - i - 1) as u16)
}

impl State {
    /// Which list a slab belongs to: the global free list while no worker owns it, else the
    /// owner's full list for its class when no slot is free, and the partial list otherwise.
    pub open spec fn place(self, slab: int) -> int {
        if self.assigned[slab] == NULL_U32 {
            0
        } else {
            list_id(
                self.assigned[slab] as int,
                self.class[slab] as int,
                self.stack[slab].len() == 0,
            )
        }
    }

    pub open spec fn places(self) -> Seq<int> {
        Seq::new(self.assigned.len(), |i: int| self.place(i))
    }

    /// The size of the slots of a slab.
    pub open spec fn slot_size(self, slab: int) -> int {
        class_bytes(self.class[slab] as int)
    }

    /// The offset at which a slot of a slab starts.
    pub open spec fn slot_at(self, l: CachedLayout, slab: int, index: int) -> int {
        l.slot(slab, self.class[slab] as int, index)
    }

    /// Which slot of its slab an offset lies in.
    pub open spec fn index_in_slab(self, l: CachedLayout, off: int) -> int {
        l.within(off) / self.slot_size(l.slab_of(off))
    }

    /// An offset at which a slot of an owned slab starts.
    pub open spec fn is_slot(self, l: CachedLayout, off: int) -> bool {
        &&& l.slabs_offset <= off
        &&& l.slab_of(off) < l.num_slabs
        &&& self.assigned[l.slab_of(off)] != NULL_U32
        &&& l.within(off) % self.slot_size(l.slab_of(off)) == 0
    }

    /// The worker that owns the slab that an offset lies in.
    pub open spec fn owner(self, l: CachedLayout, off: int) -> int {
        self.assigned[l.slab_of(off)] as int
    }

    /// A slot that is not on its slab's free stack.
    pub open spec fn is_taken(self, l: CachedLayout, off: int) -> bool {
        &&& self.is_slot(l, off)
        &&& !self.stack[l.slab_of(off)].contains(self.index_in_slab(l, off) as u16)
    }

    /// An allocation that was freed by another worker and not yet reclaimed by its owner.
    pub open spec fn is_pending(self, l: CachedLayout, off: int) -> bool {
        self.remote[self.owner(l, off)].contains(off)
    }

    /// The offsets of the allocations in use.
    pub open spec fn live(self, l: CachedLayout) -> Set<int> {
        Set::new(|off: int| self.is_taken(l, off) && !self.is_pending(l, off))
    }

    /// A slab is unowned, or its owner exists and its free slots are distinct slots of it.
    pub open spec fn slab_ok(self, l: CachedLayout, slab: int) -> bool {
        &&& self.class[slab] < NUM_SIZE_CLASSES
        &&& self.stack[slab].len() <= l.slab_size / 256
        &&& self.assigned[slab] != NULL_U32 ==> {
            &&& self.assigned[slab] < l.num_workers
            &&& serves(l.slab_size as int, self.class[slab] as int)
            &&& self.cap[slab] == l.slots(self.class[slab] as int)
            &&& self.stack[slab].len() <= self.cap[slab]
            &&& self.stack[slab].no_duplicates()
            &&& forall|j: int|
                0 <= j < self.stack[slab].len() ==> #[trigger] self.stack[slab][j] < self.cap[slab]
        }
    }

    /// The bytes in taken slots of a slab, if it belongs to the worker.
    pub open spec fn slab_used(self, worker: int, slab: int) -> int {
        if self.assigned[slab] == worker {
            (self.cap[slab] - self.stack[slab].len()) * self.slot_size(slab)
        } else {
            0
        }
    }

    /// The bytes in taken slots of a worker's slabs, over the first `n` slabs.
    pub open spec fn used_bytes(self, worker: int, n: int) -> int
        decreases n,
    {
        if n <= 0 {
            0
        } else {
            self.used_bytes(worker, n - 1) + self.slab_used(worker, n - 1)
        }
    }

    /// Each worker has counted the bytes of the slots taken from its slabs.
    pub open spec fn accounted(self, l: CachedLayout) -> bool {
        forall|w: int|
            0 <= w < l.num_workers ==> #[trigger] self.outstanding[w] == self.used_bytes(
                w,
                l.num_slabs as int,
            )
    }

    /// There is an entry for each worker and each slab.
    pub open spec fn sized(self, l: CachedLayout) -> bool {
        &&& self.lists.len() == 1 + 10 * l.num_workers
        &&& self.remote.len() == l.num_workers
        &&& self.claimed.len() == l.num_workers
        &&& self.outstanding.len() == l.num_workers
        &&& self.assigned.len() == l.num_slabs
        &&& self.class.len() == l.num_slabs
        &&& self.stack.len() == l.num_slabs
        &&& self.cap.len() == l.num_slabs
    }

    /// The remote free list of each worker holds taken slots of that worker's slabs, each
    /// once.
    pub open spec fn remote_ok(self, l: CachedLayout) -> bool {
        &&& forall|w: int| 0 <= w < self.remote.len() ==> (#[trigger] self.remote[w]).no_duplicates()
        &&& forall|w: int, j: int|
            0 <= w < self.remote.len() && 0 <= j < self.remote[w].len() ==> self.is_taken(
                l,
                #[trigger] self.remote[w][j],
            ) && self.owner(l, self.remote[w][j]) == w
    }

    /// What holds between operations, the accounting aside.
    pub open spec fn ok(self, l: CachedLayout) -> bool {
        &&& self.sized(l)
        &&& forall|i: int| 0 <= i < l.num_slabs ==> #[trigger] self.slab_ok(l, i)
        &&& forall|k: int| 0 <= k < self.lists.len() ==> (#[trigger] self.lists[k]).no_duplicates()
        &&& placed(self.places(), self.lists)
        &&& self.remote_ok(l)
    }

    /// No worker owns a slab from which nothing is taken.
    pub open spec fn no_idle_slab(self) -> bool {
        forall|i: int|
            0 <= i < self.assigned.len() && #[trigger] self.assigned[i] != NULL_U32
                ==> self.stack[i].len() < self.cap[i]
    }

    /// A slab leaves a list.
    pub open spec fn unlinked(self, list: int, slab: int) -> State {
        State {
            lists: self.lists.update(
                list,
                self.lists[list].remove(self.lists[list].index_of(slab as u32)),
            ),
            ..self
        }
    }

    /// A slab is put in front of a list.
    pub open spec fn pushed(self, list: int, slab: int) -> State {
        State {
            lists: self.lists.update(list, seq![slab as u32] + self.lists[list]),
            ..self
        }
    }

    /// The first slab of the global free list goes to a worker and class, all slots free.
    pub open spec fn take_slab(self, l: CachedLayout, worker: int, class: int) -> State {
        let slab = self.lists[0][0] as int;
        State {
            generation: next_generation(self.generation),
            lists: self.lists.update(0, self.lists[0].drop_first()),
            assigned: self.assigned.update(slab, worker as u32),
            class: self.class.update(slab, class as u64),
            stack: self.stack.update(slab, all_slots(l.slots(class))),
            cap: self.cap.update(slab, l.slots(class) as u16),
            ..self
        }.pushed(list_id(worker, class, false), slab)
    }

    /// The next free slot of a slab is handed out; a slab without free slots moves to its
    /// owner's full list.
    pub open spec fn pop_slot(self, slab: int) -> State {
        let worker = self.assigned[slab] as int;
        let class = self.class[slab] as int;
        let popped = State {
            stack: self.stack.update(slab, self.stack[slab].drop_last()),
            outstanding: self.outstanding.update(
                worker,
                (self.outstanding[worker] + self.slot_size(slab)) as u64,
            ),
            ..self
        };
        if self.stack[slab].len() == 1 {
            popped.unlinked(list_id(worker, class, false), slab).pushed(
                list_id(worker, class, true),
                slab,
            )
        } else {
            popped
        }
    }

    /// A slot is put back. A slab that had no free slot moves to its owner's partial list;
    /// a slab from which nothing is taken any more moves to the global free list.
    pub open spec fn put_slot(self, slab: int, index: int) -> State {
        let worker = self.assigned[slab] as int;
        let class = self.class[slab] as int;
        let put = State {
            stack: self.stack.update(slab, self.stack[slab].push(index as u16)),
            ..self
        };
        if self.stack[slab].len() == 0 {
            put.unlinked(list_id(worker, class, true), slab).pushed(
                list_id(worker, class, false),
                slab,
            )
        } else if self.stack[slab].len() + 1 == self.cap[slab] {
            State {
                assigned: self.assigned.update(slab, NULL_U32),
                generation: next_generation(self.generation),
                ..put
            }.unlinked(list_id(worker, class, false), slab).pushed(0, slab)
        } else {
            put
        }
    }

    /// The bytes of an allocation are no longer counted for its owner.
    pub open spec fn uncount(self, l: CachedLayout, off: int) -> State {
        State {
            outstanding: self.outstanding.update(
                self.owner(l, off),
                (self.outstanding[self.owner(l, off)] - self.slot_size(l.slab_of(off))) as u64,
            ),
            ..self
        }
    }

    /// An allocation is freed by its owner.
    pub open spec fn local_free(self, l: CachedLayout, off: int) -> State {
        self.uncount(l, off).put_slot(l.slab_of(off), self.index_in_slab(l, off))
    }

    /// Allocations of a worker are freed by others: each is put in front of the owner's
    /// remote free list, so that the last comes first.
    pub open spec fn remote_free(self, worker: int, offs: Seq<int>) -> State {
        State { remote: self.remote.update(worker, offs + self.remote[worker]), ..self }
    }

    /// An allocation is freed by a worker: by its owner, or by another.
    pub open spec fn free(self, l: CachedLayout, worker: int, off: int) -> State {
        if self.owner(l, off) == worker {
            self.local_free(l, off)
        } else {
            self.remote_free(self.owner(l, off), seq![off])
        }
    }

    /// How many bytes of a freed allocation serve to link it into a list.
    pub open spec fn link_bytes(self, l: CachedLayout, worker: int, off: int) -> int {
        if self.owner(l, off) == worker {
            0
        } else {
            8
        }
    }

    /// Allocations are freed by their owner, one after another.
    pub open spec fn local_free_all(self, l: CachedLayout, offs: Seq<int>) -> State
        decreases offs.len(),
    {
        if offs.len() == 0 {
            self
        } else {
            self.local_free(l, offs[0]).local_free_all(l, offs.drop_first())
        }
    }

    /// A worker reclaims what others have freed.
    pub open spec fn clean(self, l: CachedLayout, worker: int) -> State {
        State { remote: self.remote.update(worker, Seq::empty()), ..self }.local_free_all(
            l,
            self.remote[worker],
        )
    }

    /// Whether a worker can be given a slot of a class: it has a slab with a free slot, or
    /// there is a slab that no worker owns.
    pub open spec fn can_allocate(self, worker: int, class: int) -> bool {
        self.lists[list_id(worker, class, false)].len() > 0 || self.lists[0].len() > 0
    }

    /// The state in which the slab that the next allocation comes from is at hand, and that
    /// slab.
    pub open spec fn ready(self, l: CachedLayout, worker: int, class: int) -> (State, int) {
        let partial = self.lists[list_id(worker, class, false)];
        if partial.len() > 0 {
            (self, partial[0] as int)
        } else {
            (self.take_slab(l, worker, class), self.lists[0][0] as int)
        }
    }

    /// A worker allocates a slot of a class.
    pub open spec fn allocate(self, l: CachedLayout, worker: int, class: int) -> State {
        let (s, slab) = self.ready(l, worker, class);
        s.pop_slot(slab)
    }

    /// The offset that the next allocation gets.
    pub open spec fn next_allocation(self, l: CachedLayout, worker: int, class: int) -> int {
        let (s, slab) = self.ready(l, worker, class);
        l.slot(slab, class, s.stack[slab].last() as int)
    }
}

} // verus!
