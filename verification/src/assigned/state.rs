//! What the region holds between operations, and what the operations do to it.
use crate::assigned::region::{AssignedState, RawLayout};
use crate::global_free_list::next_generation;
use crate::index::NULL_U32;
use crate::region::serves;
use crate::size_classes::{class_bytes, NUM_SIZE_CLASSES};
use crate::slots::lemma_slots;
use crate::state::{all_slots, list_id, placed, State};
use crate::transitions::{lemma_pigeonhole, lemma_placed_push, lemma_placed_unlink};
use vstd::prelude::*;

verus! {

impl AssignedState {
    /// The state without the remote frees, as one whose workers count nothing and claim
    /// nothing.
    pub open spec fn slabs_state(self, l: RawLayout) -> State {
        State {
            generation: self.generation,
            lists: self.lists,
            remote: Seq::new(l.num_workers as nat, |w: int| Seq::empty()),
            claimed: Seq::new(l.num_workers as nat, |w: int| 0u8),
            outstanding: Seq::new(l.num_workers as nat, |w: int| 0u64),
            assigned: self.assigned,
            class: self.class,
            slab_heads: Seq::empty(),
            stack: self.stack,
            cap: Seq::new(
                l.num_slabs as nat,
                |i: int| l.slabs().slots(self.class[i] as int) as u16,
            ),
        }
    }

    /// The state that a state without remote frees and the remote frees make up.
    pub open spec fn of(slabs: State, remote: Seq<Seq<int>>) -> AssignedState {
        AssignedState {
            generation: slabs.generation,
            lists: slabs.lists,
            assigned: slabs.assigned,
            class: slabs.class,
            stack: slabs.stack,
            remote,
        }
    }

    /// How many slots a slab has.
    pub open spec fn capacity(self, l: RawLayout, slab: int) -> int {
        l.slabs().slots(self.class[slab] as int)
    }

    /// The remote free stack of each slab holds taken slots of it, each once; that of an
    /// unowned slab holds none.
    pub open spec fn remote_ok(self, l: RawLayout, slab: int) -> bool {
        &&& self.remote[slab].no_duplicates()
        &&& self.assigned[slab] == NULL_U32 ==> self.remote[slab].len() == 0
        &&& forall|j: int|
            0 <= j < self.remote[slab].len() ==> 0 <= #[trigger] self.remote[slab][j]
                < self.capacity(l, slab) && !self.stack[slab].contains(
                self.remote[slab][j] as u16,
            )
    }

    /// What holds between operations.
    pub open spec fn ok(self, l: RawLayout) -> bool {
        &&& self.slabs_state(l).ok(l.slabs())
        &&& self.remote.len() == l.num_slabs
        &&& forall|i: int| 0 <= i < l.num_slabs ==> #[trigger] self.remote_ok(l, i)
    }

    /// The offsets of the allocations in use.
    pub open spec fn live(self, l: RawLayout) -> Set<int> {
        Set::new(
            |off: int|
                self.slabs_state(l).is_taken(l.slabs(), off) && !self.remote[l.slabs().slab_of(
                    off,
                )].contains(self.slabs_state(l).index_in_slab(l.slabs(), off)),
        )
    }

    /// The first slab of the global free stack goes to a worker and class, all slots free.
    pub open spec fn take_slab(self, l: RawLayout, worker: int, class: int) -> AssignedState {
        AssignedState::of(
            self.slabs_state(l).take_slab(l.slabs(), worker, class),
            self.remote.update(self.lists[0][0] as int, Seq::empty()),
        )
    }

    /// The next free slot of a slab is handed out.
    pub open spec fn pop_slot(self, l: RawLayout, slab: int) -> AssignedState {
        AssignedState::of(self.slabs_state(l).pop_slot(slab), self.remote)
    }

    /// A slot is put back by the owner of its slab.
    pub open spec fn put_slot(self, l: RawLayout, slab: int, index: int) -> AssignedState {
        AssignedState::of(self.slabs_state(l).put_slot(slab, index), self.remote)
    }

    /// A slot is freed by another worker.
    pub open spec fn remote_free(self, slab: int, index: int) -> AssignedState {
        AssignedState {
            remote: self.remote.update(slab, seq![index] + self.remote[slab]),
            ..self
        }
    }

    /// An allocation is freed by a worker.
    pub open spec fn free(self, l: RawLayout, worker: int, off: int) -> AssignedState {
        let slab = l.slabs().slab_of(off);
        let index = self.slabs_state(l).index_in_slab(l.slabs(), off);
        if self.assigned[slab] == worker {
            self.put_slot(l, slab, index)
        } else {
            self.remote_free(slab, index)
        }
    }

    /// Slots of a slab are put back, one after another.
    pub open spec fn put_all(self, l: RawLayout, slab: int, indexes: Seq<int>) -> AssignedState
        decreases indexes.len(),
    {
        if indexes.len() == 0 {
            self
        } else {
            self.put_slot(l, slab, indexes[0]).put_all(l, slab, indexes.drop_first())
        }
    }

    /// Nothing waits on the remote free stack of a slab.
    pub open spec fn without_remote(self, slab: int) -> AssignedState {
        AssignedState { remote: self.remote.update(slab, Seq::empty()), ..self }
    }

    /// The owner of a slab puts back what others have freed.
    pub open spec fn drain_slab(self, l: RawLayout, slab: int) -> AssignedState {
        self.without_remote(slab).put_all(l, slab, self.remote[slab])
    }

    /// The same for several slabs, one after another.
    pub open spec fn drain_slabs(self, l: RawLayout, slabs: Seq<u32>) -> AssignedState
        decreases slabs.len(),
    {
        if slabs.len() == 0 {
            self
        } else {
            self.drain_slab(l, slabs[0] as int).drain_slabs(l, slabs.drop_first())
        }
    }

    /// A worker puts back what others have freed in its slabs of a class: first in those on
    /// its partial list, then in those that are on its full list by then.
    pub open spec fn drain_class(self, l: RawLayout, worker: int, class: int) -> AssignedState {
        let first = self.drain_slabs(l, self.lists[list_id(worker, class, false)]);
        first.drain_slabs(l, first.lists[list_id(worker, class, true)])
    }

    /// A worker puts back what others have freed in its slabs of the first `n` classes.
    pub open spec fn drain(self, l: RawLayout, worker: int, n: int) -> AssignedState
        decreases n,
    {
        if n <= 0 {
            self
        } else {
            self.drain(l, worker, n - 1).drain_class(l, worker, n - 1)
        }
    }

    /// All slabs of a list move to the global free stack, the first one first.
    pub open spec fn clear_list(self, list: int) -> AssignedState
        decreases self.lists[list].len(),
        when list != 0 && 0 <= list < self.lists.len()
    {
        if self.lists[list].len() == 0 {
            self
        } else {
            self.return_first(list).clear_list(list)
        }
    }

    /// The first slab of a list moves to the global free stack.
    pub open spec fn return_first(self, list: int) -> AssignedState {
        AssignedState {
            generation: next_generation(self.generation),
            lists: self.lists.update(list, self.lists[list].drop_first()).update(
                0,
                seq![self.lists[list][0]] + self.lists[0],
            ),
            assigned: self.assigned.update(self.lists[list][0] as int, NULL_U32),
            remote: self.remote.update(self.lists[list][0] as int, Seq::empty()),
            ..self
        }
    }

    /// The slabs of a worker for the first `n` classes move to the global free stack.
    pub open spec fn clear_worker(self, worker: int, n: int) -> AssignedState
        decreases n,
    {
        if n <= 0 {
            self
        } else {
            self.clear_worker(worker, n - 1).clear_list(list_id(worker, n - 1, false)).clear_list(
                list_id(worker, n - 1, true),
            )
        }
    }

    /// The state in which the slab that the next allocation comes from is at hand, and that
    /// slab.
    pub open spec fn ready(self, l: RawLayout, worker: int, class: int) -> (AssignedState, int) {
        let partial = self.lists[list_id(worker, class, false)];
        if partial.len() > 0 {
            (self, partial[0] as int)
        } else {
            (self.take_slab(l, worker, class), self.lists[0][0] as int)
        }
    }

    /// Whether a worker can be given a slot of a class.
    pub open spec fn can_allocate(self, worker: int, class: int) -> bool {
        self.lists[list_id(worker, class, false)].len() > 0 || self.lists[0].len() > 0
    }

    /// A worker allocates a slot of a class.
    pub open spec fn allocate(self, l: RawLayout, worker: int, class: int) -> AssignedState {
        let (s, slab) = self.ready(l, worker, class);
        s.pop_slot(l, slab)
    }

    /// The offset that the next allocation gets.
    pub open spec fn next_allocation(self, l: RawLayout, worker: int, class: int) -> int {
        let (s, slab) = self.ready(l, worker, class);
        l.slabs().slot(slab, class, s.stack[slab].last() as int)
    }

    /// What a change to the rest of the state leaves of its slabs.
    proof fn lemma_slabs_state(self, l: RawLayout, slabs: State, remote: Seq<Seq<int>>)
        requires
            slabs.ok(l.slabs()),
            plain_slabs(l, slabs),
        ensures
            AssignedState::of(slabs, remote).slabs_state(l).ok(l.slabs()),
            AssignedState::of(slabs, remote).slabs_state(l).assigned == slabs.assigned,
            AssignedState::of(slabs, remote).slabs_state(l).live(l.slabs()) == slabs.live(l.slabs()),
    {
        let c = AssignedState::of(slabs, remote).slabs_state(l);
        assert(c.cap =~= slabs.cap);
        slabs.lemma_same_ok(l.slabs(), c);
        assert(c.live(l.slabs()) =~= slabs.live(l.slabs())) by {
            assert forall|off: int| c.is_taken(l.slabs(), off) <==> slabs.is_taken(
                l.slabs(),
                off,
            ) by {}
            assert forall|off: int| c.is_taken(l.slabs(), off) implies !c.is_pending(
                l.slabs(),
                off,
            ) && !slabs.is_pending(l.slabs(), off) by {
                c.lemma_slot(l.slabs(), off);
            }
        }
    }
}

/// A slabs as the states have it: nothing is pending, and each slab has the slots of its
/// class.
pub open spec fn plain_slabs(l: RawLayout, slabs: State) -> bool {
    &&& l.slabs().sliced()
    &&& slabs.cap.len() == l.num_slabs
    &&& slabs.remote.len() == l.num_workers
    &&& forall|i: int|
        0 <= i < l.num_slabs ==> #[trigger] slabs.cap[i] == l.slabs().slots(
            slabs.class[i] as int,
        ) as u16
    &&& forall|w: int| 0 <= w < l.num_workers ==> (#[trigger] slabs.remote[w]).len() == 0
}

impl AssignedState {
    /// Taking a slab keeps everything in order, and nothing becomes in use.
    pub proof fn lemma_take_slab(self, l: RawLayout, worker: int, class: int)
        requires
            l.wf(),
            self.ok(l),
            0 <= worker < l.num_workers,
            0 <= class < NUM_SIZE_CLASSES,
            serves(l.slab_size as int, class),
            self.lists[0].len() > 0,
        ensures
            ({
                let slab = self.lists[0][0] as int;
                let after = self.take_slab(l, worker, class);
                &&& slab < l.num_slabs
                &&& self.assigned[slab] == NULL_U32
                &&& after.ok(l)
                &&& after.assigned == self.assigned.update(slab, worker as u32)
                &&& after.class == self.class.update(slab, class as u64)
                &&& after.stack == self.stack.update(slab, all_slots(l.slabs().slots(class)))
                &&& after.lists[list_id(worker, class, false)][0] == slab
                &&& after.live(l) == self.live(l)
                &&& l.slabs().slots(class) >= 1
                &&& placed(
                    self.slabs_state(l).places().update(slab, -1),
                    self.lists.update(0, self.lists[0].drop_first()),
                )
            }),
    {
        let slab = self.lists[0][0] as int;
        let slabs = self.slabs_state(l);
        let c2 = slabs.take_slab(l.slabs(), worker, class);
        let after = self.take_slab(l, worker, class);
        slabs.lemma_take_slab(l.slabs(), worker, class);
        assert forall|i: int| 0 <= i < l.num_slabs implies #[trigger] c2.cap[i] == l.slabs().slots(
            c2.class[i] as int,
        ) as u16 by {}
        self.lemma_slabs_state(l, c2, self.remote.update(slab, Seq::empty()));
        assert forall|i: int| 0 <= i < l.num_slabs implies #[trigger] after.remote_ok(l, i) by {
            assert(self.remote_ok(l, i));
        }
        assert(after.live(l) =~= self.live(l)) by {
            assert forall|off: int| after.live(l).contains(off) <==> self.live(l).contains(
                off,
            ) by {
                self.lemma_taken_live(l, off);
                after.lemma_taken_live(l, off);
                if after.slabs_state(l).is_taken(l.slabs(), off) {
                    after.slabs_state(l).lemma_slot(l.slabs(), off);
                    assert(self.slabs_state(l).live(l.slabs()).contains(off));
                }
                if self.slabs_state(l).is_taken(l.slabs(), off) {
                    self.slabs_state(l).lemma_slot(l.slabs(), off);
                    assert(after.slabs_state(l).live(l.slabs()).contains(off));
                }
            }
        }
    }

    /// In the slabs every taken slot counts as in use.
    pub proof fn lemma_taken_live(self, l: RawLayout, off: int)
        requires
            l.wf(),
            self.ok(l),
        ensures
            self.slabs_state(l).is_taken(l.slabs(), off) <==> self.slabs_state(l).live(
                l.slabs(),
            ).contains(off),
    {
        if self.slabs_state(l).is_taken(l.slabs(), off) {
            self.slabs_state(l).lemma_slot(l.slabs(), off);
        }
    }

    /// Handing out a slot keeps everything in order, and makes that slot in use.
    pub proof fn lemma_pop_slot(self, l: RawLayout, slab: int)
        requires
            l.wf(),
            self.ok(l),
            0 <= slab < l.num_slabs,
            self.assigned[slab] != NULL_U32,
            self.stack[slab].len() > 0,
        ensures
            ({
                let after = self.pop_slot(l, slab);
                let class = self.class[slab] as int;
                let off = l.slabs().slot(slab, class, self.stack[slab].last() as int);
                &&& after.ok(l)
                &&& after.assigned == self.assigned
                &&& after.class == self.class
                &&& !self.live(l).contains(off)
                &&& after.live(l) == self.live(l).insert(off)
                &&& l.slabs().slab_of(off) == slab
                &&& l.slab_offset <= off
                &&& off + class_bytes(class) <= l.end()
            }),
    {
        let slabs = self.slabs_state(l);
        let c2 = slabs.pop_slot(slab);
        let after = self.pop_slot(l, slab);
        let class = self.class[slab] as int;
        let index = self.stack[slab].last() as int;
        let off = l.slabs().slot(slab, class, index);
        slabs.lemma_pop_slot(l.slabs(), slab);
        assert(slabs.slab_ok(l.slabs(), slab));
        l.slabs().lemma_slot(slab, class, index);
        self.lemma_slabs_state(l, c2, self.remote);
        let rest = self.stack[slab].drop_last();
        assert forall|v: u16| #[trigger] rest.contains(v) implies self.stack[slab].contains(v) by {
            let j = rest.index_of(v);
            assert(self.stack[slab][j] == v);
        }
        assert(self.stack[slab].contains(index as u16)) by {
            assert(self.stack[slab][self.stack[slab].len() - 1] == index as u16);
        }
        assert forall|i: int| 0 <= i < l.num_slabs implies #[trigger] after.remote_ok(l, i) by {
            assert(self.remote_ok(l, i));
        }
        assert(after.live(l) =~= self.live(l).insert(off)) by {
            assert forall|y: int| after.live(l).contains(y) <==> self.live(l).insert(
                off,
            ).contains(y) by {
                self.lemma_taken_live(l, y);
                after.lemma_taken_live(l, y);
                assert(after.slabs_state(l).live(l.slabs()) == slabs.live(l.slabs()).insert(off));
                assert(self.remote_ok(l, slab));
                if y == off {
                    let list = self.remote[slab];
                    if list.contains(index) {
                        let j = list.index_of(index);
                        assert(!self.stack[slab].contains(self.remote[slab][j] as u16));
                    }
                }
            }
        }
    }

    /// Putting back a slot that nobody else has freed keeps everything in order.
    pub proof fn lemma_put_slot(self, l: RawLayout, slab: int, index: int)
        requires
            l.wf(),
            self.ok(l),
            0 <= slab < l.num_slabs,
            self.assigned[slab] != NULL_U32,
            0 <= index < self.capacity(l, slab),
            !self.stack[slab].contains(index as u16),
            !self.remote[slab].contains(index),
        ensures
            ({
                let after = self.put_slot(l, slab, index);
                let off = l.slabs().slot(slab, self.class[slab] as int, index);
                &&& after.ok(l)
                &&& after.class == self.class
                &&& after.remote == self.remote
                &&& after.live(l) == self.live(l).remove(off)
                &&& self.live(l).contains(off)
                &&& self.stack[slab].len() < self.capacity(l, slab) <= u16::MAX
                &&& self.slabs_state(l).cap[slab] == self.capacity(l, slab)
                &&& l.slabs().slab_of(off) == slab
                &&& self.slabs_state(l).index_in_slab(l.slabs(), off) == index
                &&& self.slabs_state(l).is_taken(l.slabs(), off)
                &&& forall|i: int|
                    0 <= i < l.num_slabs && i != slab ==> #[trigger] after.assigned[i]
                        == self.assigned[i]
                &&& after.assigned[slab] == self.assigned[slab] || self.remote[slab].len() == 0
                &&& after.stack == self.stack.update(slab, self.stack[slab].push(index as u16))
            }),
    {
        let slabs = self.slabs_state(l);
        let c2 = slabs.put_slot(slab, index);
        let after = self.put_slot(l, slab, index);
        let class = self.class[slab] as int;
        let off = l.slabs().slot(slab, class, index);
        assert(slabs.slab_ok(l.slabs(), slab));
        lemma_slots(l.slab_size as int, class);
        l.slabs().lemma_slot(slab, class, index);
        assert(slabs.is_taken(l.slabs(), off));
        self.lemma_taken_live(l, off);
        slabs.lemma_put_slot(l.slabs(), off);
        self.lemma_slabs_state(l, c2, self.remote);
        let more = self.stack[slab].push(index as u16);
        assert forall|i: int| 0 <= i < l.num_slabs implies #[trigger] after.remote_ok(l, i) by {
            assert(self.remote_ok(l, i));
            if i == slab {
                assert forall|j: int| 0 <= j < self.remote[slab].len() implies !more.contains(
                    #[trigger] self.remote[slab][j] as u16,
                ) && self.stack[slab].len() + 1 < self.capacity(l, slab) by {
                    let y = self.remote[slab][j];
                    assert(self.remote[slab].contains(y));
                    if more.contains(y as u16) {
                        let p = more.index_of(y as u16);
                        if p < self.stack[slab].len() {
                            assert(self.stack[slab][p] == y as u16);
                        }
                    }
                    if self.stack[slab].len() + 1 == self.capacity(l, slab) {
                        assert(more.no_duplicates());
                        lemma_pigeonhole(more, self.capacity(l, slab), y as u16);
                    }
                }
                if self.remote[slab].len() > 0 {
                    let _ = self.remote[slab][0];
                }
            }
        }
        assert(after.remote_ok(l, slab));
        assert(after.assigned[slab] == self.assigned[slab] || after.assigned[slab] == NULL_U32);
        assert(after.live(l) =~= self.live(l).remove(off)) by {
            assert forall|y: int| after.live(l).contains(y) <==> self.live(l).remove(
                off,
            ).contains(y) by {
                self.lemma_taken_live(l, y);
                after.lemma_taken_live(l, y);
                assert(after.slabs_state(l).live(l.slabs()) == slabs.live(l.slabs()).remove(off));
            }
        }
    }

    /// A slot freed by another worker is no longer in use, and waits for its owner.
    pub proof fn lemma_remote_free(self, l: RawLayout, off: int)
        requires
            l.wf(),
            self.ok(l),
            self.live(l).contains(off),
        ensures
            ({
                let slab = l.slabs().slab_of(off);
                let index = self.slabs_state(l).index_in_slab(l.slabs(), off);
                let after = self.remote_free(slab, index);
                &&& 0 <= slab < l.num_slabs
                &&& 0 <= index < self.capacity(l, slab) <= u16::MAX
                &&& off == l.slabs().slot(slab, self.class[slab] as int, index)
                &&& self.assigned[slab] != NULL_U32
                &&& after.ok(l)
                &&& after.live(l) == self.live(l).remove(off)
            }),
    {
        let slab = l.slabs().slab_of(off);
        let slabs = self.slabs_state(l);
        let index = slabs.index_in_slab(l.slabs(), off);
        let after = self.remote_free(slab, index);
        slabs.lemma_slot(l.slabs(), off);
        assert(slabs.slab_ok(l.slabs(), slab));
        lemma_slots(l.slab_size as int, self.class[slab] as int);
        let list = seq![index] + self.remote[slab];
        assert forall|i: int| 0 <= i < l.num_slabs implies #[trigger] after.remote_ok(l, i) by {
            assert(self.remote_ok(l, i));
            if i == slab {
                assert(list.no_duplicates()) by {
                    assert forall|p: int, q: int|
                        0 <= p < list.len() && 0 <= q < list.len() && p != q implies list[p]
                        != list[q] by {
                        if p > 0 {
                            assert(self.remote[slab][p - 1] == list[p]);
                            assert(self.remote[slab].contains(list[p]));
                        }
                        if q > 0 {
                            assert(self.remote[slab][q - 1] == list[q]);
                            assert(self.remote[slab].contains(list[q]));
                        }
                        if p > 0 && q > 0 {
                            assert(self.remote[slab][p - 1] != self.remote[slab][q - 1]);
                        }
                    }
                }
                assert forall|j: int| 0 <= j < list.len() implies 0 <= #[trigger] list[j]
                    < self.capacity(l, slab) && !self.stack[slab].contains(list[j] as u16) by {
                    if j > 0 {
                        assert(self.remote[slab][j - 1] == list[j]);
                    }
                }
            }
        }
        assert(after.slabs_state(l) == slabs);
        assert(after.live(l) =~= self.live(l).remove(off)) by {
            assert forall|y: int| after.live(l).contains(y) <==> self.live(l).remove(
                off,
            ).contains(y) by {
                if slabs.is_taken(l.slabs(), y) && l.slabs().slab_of(y) == slab {
                    slabs.lemma_slot(l.slabs(), y);
                    let v = slabs.index_in_slab(l.slabs(), y);
                    if list.contains(v) && v != index {
                        let j = list.index_of(v);
                        assert(self.remote[slab][j - 1] == v);
                    }
                    if self.remote[slab].contains(v) {
                        let j = self.remote[slab].index_of(v);
                        assert(list[j + 1] == v);
                    }
                    if v == index {
                        assert(list[0] == v);
                    }
                }
            }
        }
    }

    /// A slab that is returned as it is leaves everything in order.
    pub proof fn lemma_return_first(self, l: RawLayout, list: int)
        requires
            l.wf(),
            self.ok(l),
            1 <= list < self.lists.len(),
            self.lists[list].len() > 0,
        ensures
            ({
                let slab = self.lists[list][0] as int;
                let after = self.return_first(list);
                let places = self.slabs_state(l).places();
                &&& slab < l.num_slabs
                &&& after.ok(l)
                &&& self.assigned[slab] != NULL_U32
                &&& self.lists[list].contains(slab as u32)
                &&& self.lists[list].index_of(slab as u32) == 0
                &&& self.lists[list].remove(0) == self.lists[list].drop_first()
                &&& places[slab] == list
                &&& placed(
                    places.update(slab, -1),
                    self.lists.update(list, self.lists[list].drop_first()),
                )
                &&& !self.lists[0].contains(slab as u32)
            }),
    {
        let slab = self.lists[list][0] as int;
        let slabs = self.slabs_state(l);
        let after = self.return_first(list);
        let c2 = after.slabs_state(l);
        let places = slabs.places();
        assert(places[slab] == list);
        assert(slabs.slab_ok(l.slabs(), slab));
        assert(self.lists[list].index_of(slab as u32) == 0) by {
            let j = self.lists[list].index_of(slab as u32);
            assert(self.lists[list].contains(slab as u32));
            assert(self.lists[list][j] == self.lists[list][0]);
        }
        assert(self.lists[list].remove(0) =~= self.lists[list].drop_first());
        lemma_placed_unlink(places, self.lists, list, slab);
        let lists1 = self.lists.update(list, self.lists[list].drop_first());
        assert(lists1[0] == self.lists[0]);
        lemma_placed_push(places.update(slab, -1), lists1, 0, slab);
        assert(c2.places() =~= places.update(slab, -1).update(slab, 0));
        assert forall|i: int| 0 <= i < l.num_slabs implies #[trigger] c2.slab_ok(
            l.slabs(),
            i,
        ) by {
            assert(slabs.slab_ok(l.slabs(), i));
        }
        assert forall|k: int| 0 <= k < c2.lists.len() implies (
        #[trigger] c2.lists[k]).no_duplicates() by {
            let _ = slabs.lists[k];
        }
        assert forall|i: int| 0 <= i < l.num_slabs implies #[trigger] after.remote_ok(l, i) by {
            assert(self.remote_ok(l, i));
        }
    }

    /// Emptying a remote free stack keeps everything in order.
    pub proof fn lemma_without_remote(self, l: RawLayout, slab: int)
        requires
            l.wf(),
            self.ok(l),
            0 <= slab < l.num_slabs,
        ensures
            self.without_remote(slab).ok(l),
            self.without_remote(slab).slabs_state(l) == self.slabs_state(l),
            forall|j: int|
                0 <= j < self.remote[slab].len() ==> {
                    &&& 0 <= #[trigger] self.remote[slab][j] < self.capacity(l, slab)
                    &&& !self.stack[slab].contains(self.remote[slab][j] as u16)
                },
            self.remote[slab].no_duplicates(),
            self.remote[slab].len() > 0 ==> self.assigned[slab] != NULL_U32,
    {
        let after = self.without_remote(slab);
        assert(self.remote_ok(l, slab));
        assert forall|i: int| 0 <= i < l.num_slabs implies #[trigger] after.remote_ok(l, i) by {
            assert(self.remote_ok(l, i));
        }
    }

    /// Another taken slot of a slab stays taken when one is put back, and the slab keeps its
    /// owner.
    pub proof fn lemma_put_keeps(self, l: RawLayout, slab: int, index: int, other: int)
        requires
            l.wf(),
            self.ok(l),
            0 <= slab < l.num_slabs,
            self.assigned[slab] != NULL_U32,
            0 <= index < self.capacity(l, slab),
            0 <= other < self.capacity(l, slab),
            !self.stack[slab].contains(index as u16),
            !self.stack[slab].contains(other as u16),
            index != other,
        ensures
            !self.put_slot(l, slab, index).stack[slab].contains(other as u16),
            self.put_slot(l, slab, index).assigned[slab] == self.assigned[slab],
            self.put_slot(l, slab, index).class == self.class,
    {
        let slabs = self.slabs_state(l);
        let class = self.class[slab] as int;
        assert(slabs.slab_ok(l.slabs(), slab));
        lemma_slots(l.slab_size as int, class);
        l.slabs().lemma_slot(slab, class, index);
        l.slabs().lemma_slot(slab, class, other);
        let a = l.slabs().slot(slab, class, index);
        let b = l.slabs().slot(slab, class, other);
        slabs.lemma_put_keeps(l.slabs(), a, b);
    }
}

} // verus!
