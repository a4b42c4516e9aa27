//! What a change to one part of the region does to the state that it holds.
use crate::global_free_list::index_of;
use crate::header::layout::{free_stack_bytes, NODE_SIZE, SLAB_META_SIZE, WORKER_HEADS_SIZE};
use crate::memory::{same_outside, u16_at, u32_at, u64_at, u8_at};
use crate::region::{
    CachedLayout, ASSIGNED_WORKER, CLAIMED, OUTSTANDING, REMOTE_FREE_STACK_HEAD, REMOTE_HEAD,
    SIZE_CLASS_INDEX,
};
use crate::records::{record, lemma_record_within};
use crate::state::{placed, State};
use vstd::prelude::*;

verus! {

impl CachedLayout {
    /// A worker local list of the region is one of the lists of its state.
    pub proof fn lemma_ready_local(self, mem: Seq<u8>, s: State, w: int, k: int)
        requires
            self.holds(mem, s),
            0 <= w < self.num_workers,
            0 <= k < 10,
        ensures
            self.head_at(w, k) + 4 <= self.free_list_elements_offset,
            self.local_list(w, k).wf(mem.len() as int),
            self.local_list(w, k).is_list(mem),
            self.local_list(w, k).contents(mem) == s.lists[1 + 10 * w + k],
    {
        reveal(CachedLayout::holds);
        self.lemma_bounds();
        let t = self.tables(mem);
        let ll = self.local_list(w, k);
        let id = 1 + 10 * w + k;
        let _ = s.lists[id];
        assert(ll.table().prevs(mem) =~= t.wprev);
        assert(ll.table().nexts(mem) =~= t.wnext);
        assert(t.heads[id - 1] == u32_at(mem, ll.head as int));
        ll.table().lemma_is_list(mem, ll.head as int, s.lists[id]);
    }

    /// The global free list of the region is the first list of its state.
    pub proof fn lemma_ready_global(self, mem: Seq<u8>, s: State)
        requires
            self.holds(mem, s),
        ensures
            self.global_list().wf(mem.len() as int),
            self.global_list().is_list(mem),
            self.global_list().contents(mem) == s.lists[0],
            self.global_list().generation(mem) == s.generation,
    {
        reveal(CachedLayout::holds);
        self.lemma_bounds();
        let t = self.tables(mem);
        assert(self.global_list().nexts(mem) =~= t.gnext);
        crate::links::lemma_chain(t.gnext, index_of(t.ghead), s.lists[0]);
    }

    /// The free stack of a slab has room for all its slots.
    pub proof fn lemma_ready_stack(self, mem: Seq<u8>, s: State, slab: int)
        requires
            self.holds(mem, s),
            0 <= slab < self.num_slabs,
        ensures
            self.free_stack(slab).fits(mem.len() as int, self.slab_size as int / 256),
            self.free_stack(slab).contents(mem) == s.stack[slab],
            self.free_stack(slab).capacity_value(mem) == s.cap[slab],
            self.stack_at(slab) + 4 + 2 * (self.slab_size / 256) <= self.slabs_offset,
            self.slab_free_stacks_offset <= self.stack_at(slab),
    {
        reveal(CachedLayout::holds);
        self.lemma_bounds();
        self.lemma_stack_within(slab);
        assert(record(
            self.slab_free_stacks_offset as int,
            free_stack_bytes(self.slab_size as int),
            slab,
            2,
        ) == self.stack_at(slab) + 2);
        assert(s.stack[slab] == self.tables(mem).stack[slab]);
        assert(s.cap[slab] == self.tables(mem).cap[slab]);
    }

    /// A worker local list has changed, by a slab that is in no other list.
    pub proof fn lemma_holds_local(
        self,
        a: Seq<u8>,
        b: Seq<u8>,
        s: State,
        w: int,
        k: int,
        places: Seq<int>,
        slab: u32,
    )
        requires
            self.holds(a, s),
            self.stacks_fit(s.stack),
            0 <= w < self.num_workers,
            0 <= k < 10,
            placed(places, s.lists),
            slab < places.len(),
            places[slab as int] == -1 || places[slab as int] == 1 + 10 * w + k,
            self.local_list(w, k).is_list(b),
            self.local_list(w, k).only_links(a, b, self.local_list(w, k).touched(a, slab)),
        ensures
            self.holds(
                b,
                State {
                    lists: s.lists.update(1 + 10 * w + k, self.local_list(w, k).contents(b)),
                    ..s
                },
            ),
            self.only_tables(a, b),
    {
        reveal(CachedLayout::holds);
        self.lemma_bounds();
        self.lemma_ready_local(a, s, w, k);
        let ll = self.local_list(w, k);
        let id = 1 + 10 * w + k;
        let touched = ll.touched(a, slab);
        let lists2 = s.lists.update(id, ll.contents(b));
        let ta = self.tables(a);
        let tb = self.tables(b);
        self.lemma_local_op(a, b, w, k, touched);
        assert forall|j: int| 1 <= j < lists2.len() implies crate::links::dlinked(
            tb.wprev,
            tb.wnext,
            tb.heads[j - 1],
            #[trigger] lists2[j],
        ) by {
            if j == id {
                assert(ll.table().prevs(b) =~= tb.wprev);
                assert(ll.table().nexts(b) =~= tb.wnext);
            } else {
                let list = s.lists[j];
                assert forall|x: u32| list.contains(x) implies x < self.num_slabs
                    && !touched.contains(x as int) by {
                    let i = list.index_of(x);
                    assert(s.lists[j][i] == x);
                    if ll.contents(a).contains(x) {
                        let o = s.lists[id].index_of(x);
                        assert(s.lists[id][o] == x);
                    }
                    assert(crate::links::linked(ta.wnext, ta.heads[j - 1], list));
                    assert(list[i] < ta.wnext.len());
                }
                crate::links::lemma_dlinked_frame(
                    ta.wprev,
                    ta.wnext,
                    tb.wprev,
                    tb.wnext,
                    ta.heads[j - 1],
                    list,
                );
            }
        }
    }

    /// The global free list has changed.
    pub proof fn lemma_holds_global(self, a: Seq<u8>, b: Seq<u8>, s: State, slab: int)
        requires
            self.holds(a, s),
            self.stacks_fit(s.stack),
            0 <= slab < self.num_slabs,
            self.global_list().is_list(b),
            self.global_list().only_link(a, b, slab),
        ensures
            self.holds(
                b,
                State {
                    lists: s.lists.update(0, self.global_list().contents(b)),
                    generation: self.global_list().generation(b),
                    ..s
                },
            ),
            self.only_tables(a, b),
    {
        reveal(CachedLayout::holds);
        self.lemma_bounds();
        self.lemma_global_op(a, b, slab);
        assert(self.global_list().nexts(b) =~= self.tables(b).gnext);
        lemma_record_within(
            self.free_list_elements_offset as int,
            NODE_SIZE as int,
            self.num_slabs as int,
            slab,
            0,
            4,
        );
    }

    /// The free stack of a slab has changed.
    pub proof fn lemma_holds_stack(self, a: Seq<u8>, b: Seq<u8>, s: State, slab: int, room: int)
        requires
            self.holds(a, s),
            0 <= slab < self.num_slabs,
            self.stacks_fit(s.stack),
            0 <= room <= self.slab_size / 256,
            self.free_stack(slab).only_stack(a, b, room),
        ensures
            self.holds(
                b,
                State {
                    stack: s.stack.update(slab, self.free_stack(slab).contents(b)),
                    cap: s.cap.update(slab, self.free_stack(slab).capacity_value(b)),
                    ..s
                },
            ),
            self.only_tables(a, b),
    {
        reveal(CachedLayout::holds);
        self.lemma_bounds();
        self.lemma_stack_within(slab);
        self.lemma_stack_op(a, b, slab, room);
    }

    /// The owner or class of a slab has changed.
    pub proof fn lemma_holds_meta(self, a: Seq<u8>, b: Seq<u8>, s: State, slab: int)
        requires
            self.holds(a, s),
            self.stacks_fit(s.stack),
            0 <= slab < self.num_slabs,
            same_outside(a, b, self.meta_at(slab), self.meta_at(slab) + REMOTE_FREE_STACK_HEAD),
        ensures
            self.holds(
                b,
                State {
                    assigned: s.assigned.update(
                        slab,
                        u32_at(b, self.meta_at(slab) + ASSIGNED_WORKER),
                    ),
                    class: s.class.update(slab, u64_at(b, self.meta_at(slab) + SIZE_CLASS_INDEX)),
                    ..s
                },
            ),
            self.only_tables(a, b),
    {
        reveal(CachedLayout::holds);
        self.lemma_bounds();
        self.lemma_meta_op(a, b, slab);
        lemma_record_within(
            self.slab_shared_meta_offset as int,
            SLAB_META_SIZE as int,
            self.num_slabs as int,
            slab,
            0,
            SLAB_META_SIZE as int,
        );
    }

    /// The head of a slab's own remote free list has changed.
    pub proof fn lemma_holds_slab_head(self, a: Seq<u8>, b: Seq<u8>, s: State, slab: int)
        requires
            self.holds(a, s),
            self.stacks_fit(s.stack),
            0 <= slab < self.num_slabs,
            same_outside(
                a,
                b,
                self.meta_at(slab) + REMOTE_FREE_STACK_HEAD,
                self.meta_at(slab) + REMOTE_FREE_STACK_HEAD + 2,
            ),
        ensures
            self.holds(
                b,
                State {
                    slab_heads: s.slab_heads.update(
                        slab,
                        u16_at(b, self.meta_at(slab) + REMOTE_FREE_STACK_HEAD),
                    ),
                    ..s
                },
            ),
            self.only_tables(a, b),
    {
        reveal(CachedLayout::holds);
        self.lemma_bounds();
        let base = self.slab_shared_meta_offset as int;
        let size = SLAB_META_SIZE as int;
        let n = self.num_slabs as int;
        let head = REMOTE_FREE_STACK_HEAD as int;
        let ta = self.tables(a);
        let tb = self.tables(b);
        lemma_record_within(base, size, n, slab, 0, size);
        assert(self.meta_at(slab) + head == record(base, size, slab, head));
        self.lemma_ghead_same(a, b);
        self.lemma_workers_same(a, b);
        self.lemma_nodes_same(a, b);
        self.lemma_stacks_same(a, b);
        self.lemma_data_same(a, b);
        crate::records::lemma_record_frame(a, b, base, size, n, slab, head, 2);
        assert(tb.assigned =~= ta.assigned);
        assert(tb.class =~= ta.class);
        assert(tb.slab_heads =~= ta.slab_heads.update(
            slab,
            u16_at(b, self.meta_at(slab) + REMOTE_FREE_STACK_HEAD),
        ));
        assert(tb == (crate::region::Tables { slab_heads: tb.slab_heads, ..ta }));
    }

    /// One of a worker's counters has changed.
    pub proof fn lemma_holds_worker(
        self,
        a: Seq<u8>,
        b: Seq<u8>,
        s: State,
        w: int,
        field: int,
        width: int,
    )
        requires
            self.holds(a, s),
            self.stacks_fit(s.stack),
            0 <= w < self.num_workers,
            field == CLAIMED && width == 1 || field == OUTSTANDING && width == 8,
            same_outside(a, b, self.worker_at(w) + field, self.worker_at(w) + field + width),
        ensures
            self.holds(
                b,
                State {
                    claimed: if field == CLAIMED {
                        s.claimed.update(w, u8_at(b, self.worker_at(w) + field))
                    } else {
                        s.claimed
                    },
                    outstanding: if field == OUTSTANDING {
                        s.outstanding.update(w, u64_at(b, self.worker_at(w) + field))
                    } else {
                        s.outstanding
                    },
                    ..s
                },
            ),
            self.only_tables(a, b),
    {
        reveal(CachedLayout::holds);
        self.lemma_bounds();
        self.lemma_worker_op(a, b, w, field, width);
    }

    /// The remote free list of a worker has a new head, which threads another list.
    pub proof fn lemma_holds_remote_head(
        self,
        a: Seq<u8>,
        b: Seq<u8>,
        s: State,
        w: int,
        list: Seq<int>,
    )
        requires
            self.holds(a, s),
            self.stacks_fit(s.stack),
            0 <= w < self.num_workers,
            same_outside(
                a,
                b,
                self.worker_at(w) + REMOTE_HEAD,
                self.worker_at(w) + REMOTE_HEAD + 8,
            ),
            self.thread().threads(
                self.tables(a).data,
                u64_at(b, self.worker_at(w) + REMOTE_HEAD) as int,
                list,
            ),
        ensures
            self.holds(b, State { remote: s.remote.update(w, list), ..s }),
            self.only_tables(a, b),
            self.tables(b).data == self.tables(a).data,
    {
        reveal(CachedLayout::holds);
        self.lemma_bounds();
        self.lemma_worker_op(a, b, w, REMOTE_HEAD as int, 8);
    }

    /// Bytes of the slabs have changed, but no link of a remote free list.
    pub proof fn lemma_holds_data(self, a: Seq<u8>, b: Seq<u8>, s: State, lo: int, hi: int)
        requires
            self.holds(a, s),
            self.stacks_fit(s.stack),
            self.slabs_offset <= lo <= hi <= self.end(),
            same_outside(a, b, lo, hi),
            forall|w: int, j: int|
                0 <= w < s.remote.len() && 0 <= j < s.remote[w].len() ==> (#[trigger] s.remote[w][j]
                    + 8 <= lo || hi <= s.remote[w][j]) && self.slabs_offset <= s.remote[w][j]
                    && s.remote[w][j] + 8 <= self.end(),
        ensures
            self.holds(b, s),
    {
        reveal(CachedLayout::holds);
        self.lemma_bounds();
        self.lemma_data_op(a, b, lo, hi);
        let th = self.thread();
        let da = self.tables(a).data;
        let db = self.tables(b).data;
        assert forall|w: int| 0 <= w < s.remote.len() implies th.threads(
            db,
            self.tables(b).rhead[w] as int,
            #[trigger] s.remote[w],
        ) by {
            let list = s.remote[w];
            assert forall|x: int| list.contains(x) implies #[trigger] th.next(db, x) == th.next(
                da,
                x,
            ) by {
                let j = list.index_of(x);
                assert(s.remote[w][j] == x);
                crate::memory::lemma_word_same(da, db, th.slot(x), 8);
            }
            th.lemma_frame(da, db, self.tables(a).rhead[w] as int, list);
        }
    }

    /// The words about a slab, as its state has them.
    pub proof fn lemma_read_meta(self, mem: Seq<u8>, s: State, slab: int)
        requires
            self.holds(mem, s),
            0 <= slab < self.num_slabs,
        ensures
            s.assigned[slab] == u32_at(mem, self.meta_at(slab) + ASSIGNED_WORKER),
            s.class[slab] == u64_at(mem, self.meta_at(slab) + SIZE_CLASS_INDEX),
            s.slab_heads[slab] == u16_at(mem, self.meta_at(slab) + REMOTE_FREE_STACK_HEAD),
            self.wf(),
            self.meta_at(slab) + SLAB_META_SIZE <= self.slab_free_stacks_offset
                <= self.slabs_offset <= mem.len() <= usize::MAX,
    {
        reveal(CachedLayout::holds);
        self.lemma_bounds();
        lemma_record_within(
            self.slab_shared_meta_offset as int,
            SLAB_META_SIZE as int,
            self.num_slabs as int,
            slab,
            0,
            SLAB_META_SIZE as int,
        );
        assert(s.assigned[slab] == self.tables(mem).assigned[slab]);
        assert(s.class[slab] == self.tables(mem).class[slab]);
        assert(s.slab_heads[slab] == self.tables(mem).slab_heads[slab]);
    }

    /// The words about a worker, as its state has them.
    pub proof fn lemma_read_worker(self, mem: Seq<u8>, s: State, w: int)
        requires
            self.holds(mem, s),
            0 <= w < self.num_workers,
        ensures
            s.claimed[w] == u8_at(mem, self.worker_at(w) + CLAIMED),
            s.outstanding[w] == u64_at(mem, self.worker_at(w) + OUTSTANDING),
            self.thread().threads(
                self.tables(mem).data,
                u64_at(mem, self.worker_at(w) + REMOTE_HEAD) as int,
                s.remote[w],
            ),
            self.wf(),
            self.worker_at(w) + WORKER_HEADS_SIZE <= self.free_list_elements_offset
                <= self.slabs_offset <= mem.len() <= usize::MAX,
    {
        reveal(CachedLayout::holds);
        self.lemma_bounds();
        assert(s.claimed[w] == self.tables(mem).claimed[w]);
        assert(s.outstanding[w] == self.tables(mem).outstanding[w]);
        let _ = s.remote[w];
    }

    /// The link kept in an allocation is the word at its offset.
    pub proof fn lemma_link(self, mem: Seq<u8>, off: int)
        requires
            self.wf(),
            self.fits(mem.len() as int),
            self.slabs_offset <= off,
            off + 8 <= self.end(),
        ensures
            self.thread().next(self.tables(mem).data, off) == u64_at(mem, off),
    {
        self.lemma_data_word(mem, off, 8);
        assert(self.thread().slot(off) == off - self.slabs_offset);
        crate::memory::lemma_word_bound(mem, off, 8);
        reveal_with_fuel(crate::memory::limit, 9);
    }
}

} // verus!
