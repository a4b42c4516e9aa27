//! What a change to one part of the region does to the state that it holds.
use crate::assigned::region::{
    AssignedState, RawLayout, RawTables, ASSIGNED, CLASS, GLOBAL_FREE_STACK, NEXT, PREV, REMOTE,
    STACK,
};
use crate::assigned::remote_free_stack::slot_thread;
use crate::global_free_list::{generation_of, index_of, next_generation, tagged};
use crate::index::NULL_U32;
use crate::links::{dlinked, linked};
use crate::memory::{agree, same_outside, u32_at, u64_at, u8_at};
use crate::region::serves;
use crate::size_classes::{class_bytes, NUM_SIZE_CLASSES};
use crate::slots::lemma_slots;
use crate::state::placed;
use vstd::prelude::*;

verus! {

impl RawLayout {
    /// What waits on the remote free stacks are slots of the slabs.
    pub open spec fn reach(self, s: AssignedState) -> bool {
        &&& forall|i: int|
            0 <= i < self.num_slabs && s.assigned[i] != NULL_U32 ==> #[trigger] s.class[i]
                < NUM_SIZE_CLASSES && serves(self.slab_size as int, s.class[i] as int)
        &&& forall|i: int, j: int|
            0 <= i < self.num_slabs && s.assigned[i] != NULL_U32 && 0 <= j < s.remote[i].len()
                ==> 0 <= #[trigger] s.remote[i][j] < s.capacity(self, i)
    }

    /// In a state in order, free stacks have room and remote frees are slots.
    pub proof fn lemma_ok(self, s: AssignedState)
        requires
            s.ok(self),
        ensures
            self.stacks_fit(s.stack),
            self.reach(s),
            s.lists.len() == 1 + 10 * self.num_workers,
            s.assigned.len() == self.num_slabs,
            s.class.len() == self.num_slabs,
            s.stack.len() == self.num_slabs,
            s.remote.len() == self.num_slabs,
    {
        let slabs = s.slabs_state(self);
        assert forall|i: int| 0 <= i < self.num_slabs implies (#[trigger] s.stack[i]).len()
            <= self.slab_size / 256 by {
            assert(slabs.slab_ok(self.slabs(), i));
        }
        assert forall|i: int|
            0 <= i < self.num_slabs && s.assigned[i] != NULL_U32 implies #[trigger] s.class[i]
            < NUM_SIZE_CLASSES && serves(self.slab_size as int, s.class[i] as int) by {
            assert(slabs.slab_ok(self.slabs(), i));
        }
        assert forall|i: int, j: int|
            0 <= i < self.num_slabs && s.assigned[i] != NULL_U32 && 0 <= j
                < s.remote[i].len() implies 0 <= #[trigger] s.remote[i][j] < s.capacity(
            self,
            i,
        ) by {
            assert(s.remote_ok(self, i));
        }
    }

    /// Where the slot of a slab lies.
    pub proof fn lemma_slot_at(self, slab: int, class: int, index: int)
        requires
            self.wf(),
            0 <= slab < self.num_slabs,
            0 <= class < NUM_SIZE_CLASSES,
            serves(self.slab_size as int, class),
            0 <= index < self.slabs().slots(class),
        ensures
            slot_thread(self.slab_at(slab), class_bytes(class)).slot(index) == self.slabs().slot(
                slab,
                class,
                index,
            ),
            self.slab_offset <= self.slab_at(slab) <= self.slabs().slot(slab, class, index),
            self.slabs().slot(slab, class, index) + class_bytes(class) <= self.slab_at(slab)
                + self.slab_size <= self.end(),
    {
        self.slabs().lemma_slot(slab, class, index);
        lemma_slots(self.slab_size as int, class);
        crate::records::lemma_record_within(
            0,
            class_bytes(class),
            self.slabs().slots(class),
            index,
            0,
            class_bytes(class),
        );
        crate::records::lemma_record_within(
            self.slab_offset as int,
            self.slab_size as int,
            self.num_slabs as int,
            slab,
            0,
            self.slab_size as int,
        );
    }

    /// Remote free stacks stay as they are while their heads and the bytes of the slabs stay.
    proof fn lemma_threaded_same(self, a: Seq<u8>, b: Seq<u8>, s: AssignedState, s2: AssignedState, i: int)
        requires
            self.wf(),
            self.fits(a.len() as int),
            a.len() == b.len(),
            0 <= i < self.num_slabs,
            s.assigned[i] != NULL_U32,
            self.reach(s),
            self.threaded(a, s, i),
            s2.class[i] == s.class[i],
            s2.remote[i] == s.remote[i],
            self.tables(b).rhead[i] == self.tables(a).rhead[i],
            agree(a, b, self.slab_at(i), self.slab_at(i) + self.slab_size),
        ensures
            self.threaded(b, s2, i),
    {
        let class = s.class[i] as int;
        let th = slot_thread(self.slab_at(i), class_bytes(class));
        let list = s.remote[i];
        assert forall|x: int| list.contains(x) implies #[trigger] th.next(b, x) == th.next(
            a,
            x,
        ) by {
            let j = list.index_of(x);
            assert(0 <= s.remote[i][j] < s.capacity(self, i));
            let _ = s.class[i];
            self.lemma_slot_at(i, class, x);
            crate::memory::lemma_word_same(a, b, th.slot(x), 4);
        }
        th.lemma_frame(a, b, self.tables(a).rhead[i] as int, list);
    }

    /// The slabs lie one after another.
    pub proof fn lemma_slab_within(self, i: int)
        requires
            self.wf(),
            0 <= i < self.num_slabs,
        ensures
            self.slab_offset <= self.slab_at(i),
            self.slab_at(i) + self.slab_size <= self.end(),
    {
        crate::records::lemma_record_within(
            self.slab_offset as int,
            self.slab_size as int,
            self.num_slabs as int,
            i,
            0,
            self.slab_size as int,
        );
    }

    /// A worker local list of the region is one of the lists of its state.
    pub proof fn lemma_ready_local(self, mem: Seq<u8>, s: AssignedState, w: int, k: int)
        requires
            self.holds(mem, s),
            0 <= w < self.num_workers,
            0 <= k < 10,
        ensures
            self.wf(),
            self.fits(mem.len() as int),
            self.head_at(w, k) + 4 <= self.slab_meta_offset,
            self.local_list(w, k).wf(mem.len() as int),
            self.local_list(w, k).is_list(mem),
            self.local_list(w, k).contents(mem) == s.lists[1 + 10 * w + k],
    {
        reveal(RawLayout::holds);
        self.lemma_bounds();
        let t = self.tables(mem);
        let ll = self.local_list(w, k);
        let id = 1 + 10 * w + k;
        let _ = s.lists[id];
        assert(ll.list.prevs(mem) =~= t.prev);
        assert(ll.list.nexts(mem) =~= t.next);
        assert(t.heads[id - 1] == u32_at(mem, ll.head as int));
        ll.list.lemma_is_list(mem, ll.head as int, s.lists[id]);
    }

    /// The words about a slab, as its state has them.
    pub proof fn lemma_read_meta(self, mem: Seq<u8>, s: AssignedState, slab: int)
        requires
            self.holds(mem, s),
            0 <= slab < self.num_slabs,
        ensures
            self.wf(),
            self.fits(mem.len() as int),
            s.assigned.len() == self.num_slabs,
            s.class.len() == self.num_slabs,
            s.stack.len() == self.num_slabs,
            s.remote.len() == self.num_slabs,
            s.assigned[slab] == u32_at(mem, self.meta_at(slab) + ASSIGNED),
            s.class[slab] == u8_at(mem, self.meta_at(slab) + CLASS),
            self.slab_meta_offset <= self.meta_at(slab),
            self.meta_at(slab) + self.slab_meta_size <= self.slab_offset <= self.end() <= mem.len(),
            self.free_stack(slab).contents(mem) == s.stack[slab],
            self.free_stack(slab).fits(mem.len() as int, self.slab_size as int / 256),
            self.free_stack(slab).top == self.meta_at(slab) + STACK,
            self.remote_stack(slab).head == self.meta_at(slab) + REMOTE,
            s.assigned[slab] != NULL_U32 ==> slot_thread(
                self.slab_at(slab),
                class_bytes(s.class[slab] as int),
            ).threads(
                mem,
                u32_at(mem, self.meta_at(slab) + REMOTE) as int,
                s.remote[slab],
            ),
    {
        reveal(RawLayout::holds);
        self.lemma_bounds();
        self.lemma_meta_within(slab);
        let t = self.tables(mem);
        assert(s.assigned[slab] == t.assigned[slab]);
        assert(s.class[slab] == t.class[slab] as u64);
        assert(s.stack[slab] == t.stack[slab]);
        if s.assigned[slab] != NULL_U32 {
            assert(self.threaded(mem, s, slab));
        }
    }

    /// The head of the global free stack.
    pub proof fn lemma_read_global(self, mem: Seq<u8>, s: AssignedState)
        requires
            self.holds(mem, s),
        ensures
            self.wf(),
            self.fits(mem.len() as int),
            self.slab_meta_offset + self.num_slabs * self.slab_meta_size <= self.slab_offset
                <= mem.len(),
            linked(self.tables(mem).next, index_of(self.tables(mem).ghead), s.lists[0]),
            generation_of(self.tables(mem).ghead) == s.generation,
            self.tables(mem).stack == s.stack,
            self.tables(mem).next.len() == self.num_slabs,
    {
        reveal(RawLayout::holds);
        self.lemma_bounds();
    }

    /// A worker local list has changed, by a slab that is in no other list.
    pub proof fn lemma_holds_local(
        self,
        a: Seq<u8>,
        b: Seq<u8>,
        s: AssignedState,
        w: int,
        k: int,
        places: Seq<int>,
        slab: u32,
    )
        requires
            self.holds(a, s),
            self.stacks_fit(s.stack),
            self.reach(s),
            0 <= w < self.num_workers,
            0 <= k < 10,
            placed(places, s.lists),
            slab < places.len(),
            places[slab as int] == -1 || places[slab as int] == 1 + 10 * w + k,
            self.local_list(w, k).is_list(b),
            self.local_list(w, k).only_links(a, b, self.local_list(w, k).touched(a, slab)),
        ensures
            self.holds(
                b,
                AssignedState {
                    lists: s.lists.update(1 + 10 * w + k, self.local_list(w, k).contents(b)),
                    ..s
                },
            ),
            self.only_tables(a, b),
    {
        self.lemma_ready_local(a, s, w, k);
        reveal(RawLayout::holds);
        self.lemma_bounds();
        let ll = self.local_list(w, k);
        let id = 1 + 10 * w + k;
        let touched = ll.touched(a, slab);
        let lists2 = s.lists.update(id, ll.contents(b));
        let s2 = AssignedState { lists: lists2, ..s };
        let ta = self.tables(a);
        let tb = self.tables(b);
        self.lemma_local_op(a, b, w, k, touched);
        assert forall|j: int, x: u32| 0 <= j < s.lists.len() && j != id && #[trigger] s.lists[j].contains(
            x,
        ) implies x < self.num_slabs && !touched.contains(x as int) by {
            let list = s.lists[j];
            let i = list.index_of(x);
            assert(s.lists[j][i] == x);
            if ll.contents(a).contains(x) {
                let o = s.lists[id].index_of(x);
                assert(s.lists[id][o] == x);
            }
            if j == 0 {
                assert(linked(ta.next, index_of(ta.ghead), list));
            } else {
                assert(linked(ta.next, ta.heads[j - 1], list));
            }
            assert(list[i] < ta.next.len());
        }
        assert(linked(tb.next, index_of(tb.ghead), lists2[0])) by {
            assert forall|x: u32| s.lists[0].contains(x) implies #[trigger] tb.next[x as int]
                == ta.next[x as int] by {}
            crate::links::lemma_linked_frame(
                ta.next,
                tb.next,
                index_of(ta.ghead),
                s.lists[0],
            );
        }
        assert forall|j: int| 1 <= j < lists2.len() implies dlinked(
            tb.prev,
            tb.next,
            tb.heads[j - 1],
            #[trigger] lists2[j],
        ) by {
            if j == id {
                assert(ll.list.prevs(b) =~= tb.prev);
                assert(ll.list.nexts(b) =~= tb.next);
            } else {
                let list = s.lists[j];
                crate::links::lemma_dlinked_frame(
                    ta.prev,
                    ta.next,
                    tb.prev,
                    tb.next,
                    ta.heads[j - 1],
                    list,
                );
            }
        }
        assert forall|i: int|
            0 <= i < self.num_slabs && s2.assigned[i] != NULL_U32 implies #[trigger] self.threaded(
            b,
            s2,
            i,
        ) by {
            assert(self.threaded(a, s, i));
            self.lemma_slab_within(i);
            self.lemma_threaded_same(a, b, s, s2, i);
        }
    }

    /// The free stack of a slab stays as it is while its bytes stay.
    pub proof fn lemma_free_stack_same(self, a: Seq<u8>, b: Seq<u8>, s: AssignedState, slab: int)
        requires
            self.holds(a, s),
            self.stacks_fit(s.stack),
            0 <= slab < self.num_slabs,
            a.len() == b.len(),
            agree(a, b, self.meta_at(slab) + STACK, self.meta_at(slab) + self.slab_meta_size),
        ensures
            self.free_stack(slab).contents(b) == s.stack[slab],
    {
        self.lemma_read_meta(a, s, slab);
        self.lemma_bounds();
        self.lemma_stack_same(a, b, slab);
    }

    /// The header, the bytes of the slabs and what follows them are untouched.
    pub open spec fn only_tables(self, a: Seq<u8>, b: Seq<u8>) -> bool {
        &&& a.len() == b.len()
        &&& agree(a, b, 0, GLOBAL_FREE_STACK as int)
        &&& agree(a, b, self.slab_offset as int, a.len() as int)
    }

    /// The first slab has left the global free stack.
    pub proof fn lemma_holds_pop(self, a: Seq<u8>, b: Seq<u8>, s: AssignedState)
        requires
            self.holds(a, s),
            self.stacks_fit(s.stack),
            self.reach(s),
            s.lists[0].len() > 0,
            same_outside(a, b, GLOBAL_FREE_STACK as int, GLOBAL_FREE_STACK + 8),
            u64_at(b, GLOBAL_FREE_STACK as int) == tagged(
                next_generation(s.generation),
                self.tables(a).next[s.lists[0][0] as int],
            ),
        ensures
            self.holds(
                b,
                AssignedState {
                    generation: next_generation(s.generation),
                    lists: s.lists.update(0, s.lists[0].drop_first()),
                    ..s
                },
            ),
            self.only_tables(a, b),
    {
        reveal(RawLayout::holds);
        self.lemma_bounds();
        self.lemma_ghead_op(a, b);
        let ta = self.tables(a);
        let tb = self.tables(b);
        let s2 = AssignedState {
            generation: next_generation(s.generation),
            lists: s.lists.update(0, s.lists[0].drop_first()),
            ..s
        };
        let rest = s.lists[0].drop_first();
        let first = index_of(ta.ghead);
        crate::links::lemma_linked_pop(ta.next, first, s.lists[0]);
        crate::global_free_list::law_pack_round_trip(
            next_generation(s.generation),
            ta.next[first as int],
            tb.ghead,
        );
        crate::links::lemma_linked_frame(
            ta.next.update(first as int, NULL_U32),
            ta.next,
            index_of(tb.ghead),
            rest,
        );
        assert forall|k: int| 1 <= k < s2.lists.len() implies dlinked(
            tb.prev,
            tb.next,
            tb.heads[k - 1],
            #[trigger] s2.lists[k],
        ) by {
            let _ = s.lists[k];
        }
        assert forall|i: int|
            0 <= i < self.num_slabs && s2.assigned[i] != NULL_U32 implies #[trigger] self.threaded(
            b,
            s2,
            i,
        ) by {
            assert(self.threaded(a, s, i));
            self.lemma_slab_within(i);
            self.lemma_threaded_same(a, b, s, s2, i);
        }
    }

    /// A slab that is in no list was put on the global free stack.
    pub proof fn lemma_holds_return(
        self,
        a: Seq<u8>,
        b: Seq<u8>,
        s: AssignedState,
        places: Seq<int>,
        slab: int,
    )
        requires
            self.holds(a, s),
            self.reach(s),
            placed(places, s.lists),
            places.len() == self.num_slabs,
            0 <= slab < self.num_slabs,
            places[slab] == -1,
            self.tables(b) == self.tables(a).returned(slab),
            self.only_tables(a, b),
        ensures
            self.holds(
                b,
                AssignedState {
                    generation: next_generation(s.generation),
                    lists: s.lists.update(0, seq![slab as u32] + s.lists[0]),
                    assigned: s.assigned.update(slab, NULL_U32),
                    remote: s.remote.update(slab, Seq::empty()),
                    ..s
                },
            ),
    {
        reveal(RawLayout::holds);
        self.lemma_bounds();
        let ta = self.tables(a);
        let tb = self.tables(b);
        let s2 = AssignedState {
            generation: next_generation(s.generation),
            lists: s.lists.update(0, seq![slab as u32] + s.lists[0]),
            assigned: s.assigned.update(slab, NULL_U32),
            remote: s.remote.update(slab, Seq::empty()),
            ..s
        };
        assert forall|k: int| 0 <= k < s.lists.len() implies !(#[trigger] s.lists[k]).contains(
            slab as u32,
        ) by {
            if s.lists[k].contains(slab as u32) {
                let j = s.lists[k].index_of(slab as u32);
                assert(s.lists[k][j] == slab as u32);
            }
        }
        crate::links::lemma_linked_push(ta.next, index_of(ta.ghead), s.lists[0], slab as u32);
        crate::global_free_list::law_pack_round_trip(
            next_generation(s.generation),
            slab as u32,
            tb.ghead,
        );
        assert forall|k: int| 1 <= k < s2.lists.len() implies dlinked(
            tb.prev,
            tb.next,
            tb.heads[k - 1],
            #[trigger] s2.lists[k],
        ) by {
            let list = s.lists[k];
            assert(dlinked(ta.prev, ta.next, ta.heads[k - 1], list));
            assert forall|x: u32| list.contains(x) implies x != slab as u32 && x < self.num_slabs by {
                let i = list.index_of(x);
                assert(list[i] < ta.next.len());
            }
            crate::links::lemma_dlinked_frame(
                ta.prev,
                ta.next,
                tb.prev,
                tb.next,
                ta.heads[k - 1],
                list,
            );
        }
        assert forall|i: int|
            0 <= i < self.num_slabs && s2.assigned[i] != NULL_U32 implies #[trigger] self.threaded(
            b,
            s2,
            i,
        ) by {
            assert(self.threaded(a, s, i));
            self.lemma_slab_within(i);
            self.lemma_threaded_same(a, b, s, s2, i);
        }
    }

    /// The record of a slab has changed, but for its links.
    pub proof fn lemma_holds_row(
        self,
        a: Seq<u8>,
        b: Seq<u8>,
        s: AssignedState,
        slab: int,
        remote: Seq<int>,
    )
        requires
            self.holds(a, s),
            self.reach(s),
            self.stacks_fit(s.stack),
            0 <= slab < self.num_slabs,
            a.len() == b.len(),
            same_outside(a, b, self.meta_at(slab), self.meta_at(slab) + self.slab_meta_size),
            u32_at(b, self.meta_at(slab) + PREV) == u32_at(a, self.meta_at(slab) + PREV),
            u32_at(b, self.meta_at(slab) + NEXT) == u32_at(a, self.meta_at(slab) + NEXT),
            u32_at(b, self.meta_at(slab) + ASSIGNED) != NULL_U32,
            slot_thread(
                self.slab_at(slab),
                class_bytes(u8_at(b, self.meta_at(slab) + CLASS) as int),
            ).threads(b, u32_at(b, self.meta_at(slab) + REMOTE) as int, remote),
        ensures
            self.holds(
                b,
                AssignedState {
                    assigned: s.assigned.update(
                        slab,
                        u32_at(b, self.meta_at(slab) + ASSIGNED),
                    ),
                    class: s.class.update(slab, u8_at(b, self.meta_at(slab) + CLASS) as u64),
                    stack: s.stack.update(slab, self.free_stack(slab).contents(b)),
                    remote: s.remote.update(slab, remote),
                    ..s
                },
            ),
            self.only_tables(a, b),
    {
        reveal(RawLayout::holds);
        self.lemma_bounds();
        self.lemma_meta_within(slab);
        self.lemma_row_op(a, b, slab);
        let ta = self.tables(a);
        let tb = self.tables(b);
        let s2 = AssignedState {
            assigned: s.assigned.update(slab, u32_at(b, self.meta_at(slab) + ASSIGNED)),
            class: s.class.update(slab, u8_at(b, self.meta_at(slab) + CLASS) as u64),
            stack: s.stack.update(slab, self.free_stack(slab).contents(b)),
            remote: s.remote.update(slab, remote),
            ..s
        };
        assert(tb.prev =~= ta.prev);
        assert(tb.next =~= ta.next);
        assert(s2.class =~= tb.class.map_values(|c: u8| c as u64));
        assert forall|k: int| 1 <= k < s2.lists.len() implies dlinked(
            tb.prev,
            tb.next,
            tb.heads[k - 1],
            #[trigger] s2.lists[k],
        ) by {}
        assert forall|i: int|
            0 <= i < self.num_slabs && s2.assigned[i] != NULL_U32 implies #[trigger] self.threaded(
            b,
            s2,
            i,
        ) by {
            self.lemma_slab_within(i);
            if i != slab {
                assert(self.threaded(a, s, i));
                self.lemma_threaded_same(a, b, s, s2, i);
            }
        }
    }

    /// Bytes of a slab have changed, but no link of a slot that waits to be put back.
    pub proof fn lemma_holds_data(self, a: Seq<u8>, b: Seq<u8>, s: AssignedState, slab: int, lo: int, hi: int)
        requires
            self.holds(a, s),
            self.reach(s),
            self.stacks_fit(s.stack),
            0 <= slab < self.num_slabs,
            self.slab_at(slab) <= lo <= hi <= self.slab_at(slab) + self.slab_size,
            same_outside(a, b, lo, hi),
            s.assigned[slab] != NULL_U32,
            forall|j: int|
                0 <= j < s.remote[slab].len() ==> {
                    let at = self.slabs().slot(
                        slab,
                        s.class[slab] as int,
                        #[trigger] s.remote[slab][j],
                    );
                    at + 4 <= lo || hi <= at
                },
        ensures
            self.holds(b, s),
    {
        reveal(RawLayout::holds);
        self.lemma_bounds();
        self.lemma_slab_within(slab);
        self.lemma_data_op(a, b, lo, hi);
        assert forall|i: int|
            0 <= i < self.num_slabs && s.assigned[i] != NULL_U32 implies #[trigger] self.threaded(
            b,
            s,
            i,
        ) by {
            assert(self.threaded(a, s, i));
            self.lemma_slab_within(i);
            let class = s.class[i] as int;
            if i != slab {
                if i < slab {
                    crate::records::lemma_record_apart(
                        self.slab_offset as int,
                        self.slab_size as int,
                        i,
                        slab,
                    );
                } else {
                    crate::records::lemma_record_apart(
                        self.slab_offset as int,
                        self.slab_size as int,
                        slab,
                        i,
                    );
                }
                self.lemma_threaded_same(a, b, s, s, i);
            } else {
                let th = slot_thread(self.slab_at(i), class_bytes(class));
                let list = s.remote[i];
                assert forall|x: int| list.contains(x) implies #[trigger] th.next(b, x) == th.next(
                    a,
                    x,
                ) by {
                    let j = list.index_of(x);
                    assert(0 <= s.remote[i][j] < s.capacity(self, i));
                    self.lemma_slot_at(i, class, x);
                    crate::memory::lemma_word_same(a, b, th.slot(x), 4);
                }
                th.lemma_frame(a, b, self.tables(a).rhead[i] as int, list);
            }
        }
    }
}

impl RawLayout {
    /// The words of a slab's record before the given field are as before.
    pub proof fn lemma_row_words(self, a: Seq<u8>, b: Seq<u8>, s: AssignedState, slab: int, field: int)
        requires
            self.holds(a, s),
            0 <= slab < self.num_slabs,
            field == STACK,
            same_outside(
                a,
                b,
                self.meta_at(slab) + field,
                self.meta_at(slab) + self.slab_meta_size,
            ),
        ensures
            u32_at(b, self.meta_at(slab) + PREV) == u32_at(a, self.meta_at(slab) + PREV),
            u32_at(b, self.meta_at(slab) + NEXT) == u32_at(a, self.meta_at(slab) + NEXT),
            u32_at(b, self.meta_at(slab) + ASSIGNED) == s.assigned[slab],
            u8_at(b, self.meta_at(slab) + CLASS) == s.class[slab],
            u32_at(b, self.meta_at(slab) + REMOTE) == u32_at(a, self.meta_at(slab) + REMOTE),
            self.only_tables(a, b),
    {
        self.lemma_read_meta(a, s, slab);
        let at = self.meta_at(slab);
        crate::memory::lemma_word_same(a, b, at + PREV, 4);
        crate::memory::lemma_word_same(a, b, at + NEXT, 4);
        crate::memory::lemma_word_same(a, b, at + ASSIGNED, 4);
        crate::memory::lemma_word_same(a, b, at + CLASS, 1);
        crate::memory::lemma_word_same(a, b, at + REMOTE, 4);
    }

    /// What waits on a remote free stack is threaded as before while head and slab stay.
    pub proof fn lemma_thread_kept(self, a: Seq<u8>, b: Seq<u8>, s: AssignedState, slab: int)
        requires
            self.holds(a, s),
            self.reach(s),
            0 <= slab < self.num_slabs,
            s.assigned[slab] != NULL_U32,
            a.len() == b.len(),
            agree(a, b, self.slab_offset as int, a.len() as int),
        ensures
            slot_thread(self.slab_at(slab), class_bytes(s.class[slab] as int)).threads(
                b,
                u32_at(a, self.meta_at(slab) + REMOTE) as int,
                s.remote[slab],
            ),
    {
        self.lemma_read_meta(a, s, slab);
        let class = s.class[slab] as int;
        let th = slot_thread(self.slab_at(slab), class_bytes(class));
        let list = s.remote[slab];
        assert forall|x: int| list.contains(x) implies #[trigger] th.next(b, x) == th.next(
            a,
            x,
        ) by {
            let j = list.index_of(x);
            assert(0 <= s.remote[slab][j] < s.capacity(self, slab));
            self.lemma_slot_at(slab, class, x);
            crate::memory::lemma_word_same(a, b, th.slot(x), 4);
        }
        th.lemma_frame(a, b, u32_at(a, self.meta_at(slab) + REMOTE) as int, list);
    }

    /// A slot in use can be pushed onto the remote free stack of its slab.
    pub proof fn lemma_remote_ready(self, mem: Seq<u8>, s: AssignedState, slab: int, index: int)
        requires
            self.holds(mem, s),
            self.reach(s),
            0 <= slab < self.num_slabs,
            s.assigned[slab] != NULL_U32,
            0 <= index < s.capacity(self, slab),
        ensures
            ({
                let stack = self.remote_stack(slab);
                let size = class_bytes(s.class[slab] as int);
                &&& stack.is_stack(mem, size, self.slab_at(slab))
                &&& stack.contents(mem, size, self.slab_at(slab)) == s.remote[slab]
                &&& stack.reaches(mem.len() as int, size, self.slab_at(slab), index)
            }),
    {
        self.lemma_read_meta(mem, s, slab);
        self.lemma_slab_within(slab);
        let class = s.class[slab] as int;
        let stack = self.remote_stack(slab);
        let size = class_bytes(class);
        lemma_slots(self.slab_size as int, class);
        slot_thread(self.slab_at(slab), size).lemma_items(
            mem,
            u32_at(mem, self.meta_at(slab) + REMOTE) as int,
            s.remote[slab],
        );
        assert forall|x: int| 0 <= x < s.capacity(self, slab) implies #[trigger] stack.reaches(
            mem.len() as int,
            size,
            self.slab_at(slab),
            x,
        ) by {
            self.lemma_slot_at(slab, class, x);
        }
        assert forall|i: int| 0 <= i < s.remote[slab].len() implies stack.reaches(
            mem.len() as int,
            size,
            self.slab_at(slab),
            #[trigger] s.remote[slab][i],
        ) by {
            assert(0 <= s.remote[slab][i] < s.capacity(self, slab));
        }
    }

    /// A slot was pushed onto the remote free stack of its slab.
    pub proof fn lemma_holds_remote_push(
        self,
        a: Seq<u8>,
        b: Seq<u8>,
        s: AssignedState,
        slab: int,
        index: int,
    )
        requires
            self.holds(a, s),
            self.reach(s),
            self.stacks_fit(s.stack),
            0 <= slab < self.num_slabs,
            s.assigned[slab] != NULL_U32,
            0 <= index < s.capacity(self, slab),
            !s.remote[slab].contains(index),
            a.len() == b.len(),
            ({
                let stack = self.remote_stack(slab);
                let size = class_bytes(s.class[slab] as int);
                let at = self.slab_at(slab) + index * size;
                &&& stack.is_stack(b, size, self.slab_at(slab))
                &&& stack.contents(b, size, self.slab_at(slab)) == seq![index] + s.remote[slab]
                &&& forall|i: int|
                    0 <= i < a.len() && !(stack.head <= i < stack.head + 4) && !(at <= i < at + 4)
                        ==> #[trigger] b[i] == a[i]
            }),
        ensures
            self.holds(b, s.remote_free(slab, index)),
            agree(a, b, 0, GLOBAL_FREE_STACK as int),
            forall|i: int|
                self.slab_offset <= i < a.len() && !(self.slabs().slot(
                    slab,
                    s.class[slab] as int,
                    index,
                ) <= i < self.slabs().slot(slab, s.class[slab] as int, index) + 4)
                    ==> #[trigger] b[i] == a[i],
    {
        self.lemma_read_meta(a, s, slab);
        self.lemma_slab_within(slab);
        let class = s.class[slab] as int;
        let size = class_bytes(class);
        let at = self.slabs().slot(slab, class, index);
        self.lemma_slot_at(slab, class, index);
        let mid = Seq::new(
            a.len(),
            |i: int|
                if at <= i < at + 4 {
                    b[i]
                } else {
                    a[i]
                },
        );
        assert forall|j: int| 0 <= j < s.remote[slab].len() implies {
            let o = self.slabs().slot(slab, class, #[trigger] s.remote[slab][j]);
            o + 4 <= at || at + 4 <= o
        } by {
            let x = s.remote[slab][j];
            assert(s.remote[slab].contains(x));
            assert(0 <= x < s.capacity(self, slab));
            self.lemma_slot_at(slab, class, x);
            crate::assigned::remote_free_stack::lemma_slots_differ(
                self.slab_at(slab),
                size,
                x,
                index,
            );
        }
        self.lemma_holds_data(a, mid, s, slab, at, at + 4);
        self.lemma_read_meta(mid, s, slab);
        let m = self.meta_at(slab);
        crate::memory::lemma_word_same(mid, b, m + PREV, 4);
        crate::memory::lemma_word_same(mid, b, m + NEXT, 4);
        crate::memory::lemma_word_same(mid, b, m + ASSIGNED, 4);
        crate::memory::lemma_word_same(mid, b, m + CLASS, 1);
        self.lemma_free_stack_same(mid, b, s, slab);
        self.lemma_holds_row(mid, b, s, slab, seq![index] + s.remote[slab]);
        assert(s.assigned.update(slab, s.assigned[slab]) =~= s.assigned);
        assert(s.class.update(slab, s.class[slab]) =~= s.class);
        assert(s.stack.update(slab, s.stack[slab]) =~= s.stack);
    }
}

impl RawTables {
    /// A slab was put on the global free stack.
    pub open spec fn returned(self, slab: int) -> RawTables {
        RawTables {
            ghead: tagged(next_generation(generation_of(self.ghead)), slab as u32),
            next: self.next.update(slab, index_of(self.ghead)),
            prev: self.prev.update(slab, NULL_U32),
            assigned: self.assigned.update(slab, NULL_U32),
            ..self
        }
    }
}

} // verus!
