//! Which tables a change to some bytes of the region leaves alone.
use crate::header::layout::{
    free_stack_bytes, HEADER_SIZE, NODE_SIZE, SLAB_META_SIZE, WORKER_HEADS_SIZE,
};
use crate::linked_list_node::GLOBAL_NEXT;
use crate::memory::{agree, same_outside, u32_at, u64_at, u8_at, word};
use crate::records::{record, lemma_record_apart, lemma_record_within};
use crate::region::{
    CachedLayout, Tables, CLAIMED, GLOBAL_HEAD, LIST_HEADS, OUTSTANDING, REMOTE_FREE_STACK_HEAD,
    REMOTE_HEAD,
};
use vstd::arithmetic::mul::*;
use vstd::prelude::*;

verus! {

impl CachedLayout {
    /// Bounds of the parts of the region, as plain inequalities.
    pub proof fn lemma_bounds(self)
        requires
            self.wf(),
        ensures
            0 <= self.num_slabs * self.slab_size,
            0 <= self.num_slabs * free_stack_bytes(self.slab_size as int),
            free_stack_bytes(self.slab_size as int) == 4 + 2 * (self.slab_size / 256),
            self.slabs_offset <= self.end(),
    {
        lemma_mul_nonnegative(self.num_slabs as int, self.slab_size as int);
        lemma_mul_nonnegative(
            self.num_slabs as int,
            free_stack_bytes(self.slab_size as int),
        );
    }

    /// The heads and counters of the workers depend on their own part of the region only.
    pub proof fn lemma_workers_same(self, a: Seq<u8>, b: Seq<u8>)
        requires
            self.wf(),
            agree(a, b, HEADER_SIZE as int, HEADER_SIZE + self.num_workers * WORKER_HEADS_SIZE),
        ensures
            self.tables(b).heads == self.tables(a).heads,
            self.tables(b).claimed == self.tables(a).claimed,
            self.tables(b).outstanding == self.tables(a).outstanding,
            self.tables(b).rhead == self.tables(a).rhead,
    {
        let nw = self.num_workers as int;
        assert forall|w: int, f: int, v: nat|
            0 <= w < nw && 0 <= f && f + v <= WORKER_HEADS_SIZE implies #[trigger] word(
            b,
            record(HEADER_SIZE as int, WORKER_HEADS_SIZE as int, w, f),
            v,
        ) == word(a, record(HEADER_SIZE as int, WORKER_HEADS_SIZE as int, w, f), v) by {
            crate::memory::lemma_word_same(
                a,
                b,
                record(HEADER_SIZE as int, WORKER_HEADS_SIZE as int, w, f),
                v,
            );
        }
        assert(self.tables(b).heads =~= self.tables(a).heads);
        assert(self.tables(b).claimed =~= self.tables(a).claimed);
        assert(self.tables(b).outstanding =~= self.tables(a).outstanding);
        assert(self.tables(b).rhead =~= self.tables(a).rhead);
    }

    /// The links of the slabs depend on their own part of the region only.
    pub proof fn lemma_nodes_same(self, a: Seq<u8>, b: Seq<u8>)
        requires
            self.wf(),
            agree(
                a,
                b,
                self.free_list_elements_offset as int,
                self.free_list_elements_offset + self.num_slabs * NODE_SIZE,
            ),
        ensures
            self.tables(b).gnext == self.tables(a).gnext,
            self.tables(b).wprev == self.tables(a).wprev,
            self.tables(b).wnext == self.tables(a).wnext,
    {
        let base = self.free_list_elements_offset as int;
        assert forall|i: int, f: int, v: nat|
            0 <= i < self.num_slabs && 0 <= f && f + v <= NODE_SIZE implies #[trigger] word(
            b,
            record(base, NODE_SIZE as int, i, f),
            v,
        ) == word(a, record(base, NODE_SIZE as int, i, f), v) by {
            crate::memory::lemma_word_same(a, b, record(base, NODE_SIZE as int, i, f), v);
        }
        assert(self.tables(b).gnext =~= self.tables(a).gnext);
        assert(self.tables(b).wprev =~= self.tables(a).wprev);
        assert(self.tables(b).wnext =~= self.tables(a).wnext);
    }

    /// The owners and classes of the slabs depend on their own part of the region only.
    pub proof fn lemma_metas_same(self, a: Seq<u8>, b: Seq<u8>)
        requires
            self.wf(),
            agree(
                a,
                b,
                self.slab_shared_meta_offset as int,
                self.slab_shared_meta_offset + self.num_slabs * SLAB_META_SIZE,
            ),
        ensures
            self.tables(b).assigned == self.tables(a).assigned,
            self.tables(b).class == self.tables(a).class,
            self.tables(b).slab_heads == self.tables(a).slab_heads,
    {
        let base = self.slab_shared_meta_offset as int;
        assert forall|i: int, f: int, v: nat|
            0 <= i < self.num_slabs && 0 <= f && f + v <= SLAB_META_SIZE implies #[trigger] word(
            b,
            record(base, SLAB_META_SIZE as int, i, f),
            v,
        ) == word(a, record(base, SLAB_META_SIZE as int, i, f), v) by {
            crate::memory::lemma_word_same(a, b, record(base, SLAB_META_SIZE as int, i, f), v);
        }
        assert(self.tables(b).assigned =~= self.tables(a).assigned);
        assert(self.tables(b).class =~= self.tables(a).class);
        assert(self.tables(b).slab_heads =~= self.tables(a).slab_heads);
    }

    /// Where the free stack of a slab lies.
    pub proof fn lemma_stack_within(self, slab: int)
        requires
            self.wf(),
            0 <= slab < self.num_slabs,
        ensures
            self.slab_free_stacks_offset <= self.stack_at(slab),
            self.stack_at(slab) + 4 + 2 * (self.slab_size / 256) <= self.slab_free_stacks_offset
                + self.num_slabs * free_stack_bytes(self.slab_size as int) <= self.slabs_offset,
    {
        self.lemma_bounds();
        let bytes = free_stack_bytes(self.slab_size as int);
        lemma_record_within(
            self.slab_free_stacks_offset as int,
            bytes,
            self.num_slabs as int,
            slab,
            0,
            bytes,
        );
    }

    /// The free stack of a slab depends on its own bytes only, as long as it is no deeper
    /// than the room it has.
    pub proof fn lemma_stack_same(self, a: Seq<u8>, b: Seq<u8>, slab: int)
        requires
            self.wf(),
            0 <= slab < self.num_slabs,
            self.free_stack(slab).contents(a).len() <= self.slab_size / 256,
            agree(
                a,
                b,
                self.stack_at(slab),
                self.stack_at(slab) + 4 + 2 * (self.slab_size / 256),
            ),
        ensures
            self.tables(b).stack[slab] == self.tables(a).stack[slab],
            self.tables(b).cap[slab] == self.tables(a).cap[slab],
    {
        self.lemma_stack_within(slab);
        let fs = self.free_stack(slab);
        crate::memory::lemma_word_same(a, b, self.stack_at(slab), 2);
        crate::memory::lemma_word_same(a, b, self.stack_at(slab) + 2, 2);
        assert(record(
            self.slab_free_stacks_offset as int,
            free_stack_bytes(self.slab_size as int),
            slab,
            2,
        ) == self.stack_at(slab) + 2);
        assert forall|j: int| 0 <= j < fs.contents(a).len() implies fs.contents(b)[j]
            == fs.contents(a)[j] by {
            crate::memory::lemma_word_same(a, b, self.stack_at(slab) + 4 + 2 * j, 2);
        }
        assert(fs.contents(b) =~= fs.contents(a));
    }

    /// The bytes of the slabs are those of their own part of the region.
    pub proof fn lemma_data_same(self, a: Seq<u8>, b: Seq<u8>)
        requires
            self.wf(),
            agree(a, b, self.slabs_offset as int, self.end()),
            a.len() == b.len(),
            self.fits(a.len() as int),
        ensures
            self.tables(b).data == self.tables(a).data,
    {
        self.lemma_bounds();
        assert(self.tables(b).data =~= self.tables(a).data);
    }

    /// The head of the global free list depends on its own bytes only.
    pub proof fn lemma_ghead_same(self, a: Seq<u8>, b: Seq<u8>)
        requires
            agree(a, b, GLOBAL_HEAD as int, GLOBAL_HEAD + 8),
        ensures
            self.tables(b).ghead == self.tables(a).ghead,
    {
        crate::memory::lemma_word_same(a, b, GLOBAL_HEAD as int, 8);
    }

    /// No free stack is deeper than the room it has.
    pub open spec fn stacks_fit(self, stack: Seq<Seq<u16>>) -> bool {
        forall|i: int|
            0 <= i < self.num_slabs ==> (#[trigger] stack[i]).len() <= self.slab_size / 256
    }

    /// The free stacks depend on their own part of the region only.
    pub proof fn lemma_stacks_same(self, a: Seq<u8>, b: Seq<u8>)
        requires
            self.wf(),
            self.stacks_fit(self.tables(a).stack),
            agree(
                a,
                b,
                self.slab_free_stacks_offset as int,
                self.slab_free_stacks_offset + self.num_slabs * free_stack_bytes(
                    self.slab_size as int,
                ),
            ),
        ensures
            self.tables(b).stack == self.tables(a).stack,
            self.tables(b).cap == self.tables(a).cap,
    {
        assert forall|i: int| 0 <= i < self.num_slabs implies self.tables(b).stack[i]
            == self.tables(a).stack[i] && self.tables(b).cap[i] == self.tables(a).cap[i] by {
            self.lemma_stack_within(i);
            assert(self.tables(a).stack[i].len() <= self.slab_size / 256);
            self.lemma_stack_same(a, b, i);
        }
        assert(self.tables(b).stack =~= self.tables(a).stack);
        assert(self.tables(b).cap =~= self.tables(a).cap);
    }

    /// What a push or remove on a worker local list does to the tables.
    pub proof fn lemma_local_op(self, a: Seq<u8>, b: Seq<u8>, w: int, k: int, slabs: Set<int>)
        requires
            self.wf(),
            self.fits(a.len() as int),
            self.stacks_fit(self.tables(a).stack),
            0 <= w < self.num_workers,
            0 <= k < 10,
            self.local_list(w, k).only_links(a, b, slabs),
        ensures
            self.tables(b) == (Tables {
                wprev: self.tables(b).wprev,
                wnext: self.tables(b).wnext,
                heads: self.tables(a).heads.update(
                    10 * w + k,
                    u32_at(b, self.head_at(w, k)),
                ),
                ..self.tables(a)
            }),
            forall|i: int|
                0 <= i < self.num_slabs && !slabs.contains(i) ==> #[trigger] self.tables(b).wprev[i]
                    == self.tables(a).wprev[i],
            forall|i: int|
                0 <= i < self.num_slabs && !slabs.contains(i) ==> #[trigger] self.tables(b).wnext[i]
                    == self.tables(a).wnext[i],
    {
        self.lemma_bounds();
        let ll = self.local_list(w, k);
        let ta = self.tables(a);
        let tb = self.tables(b);
        let at = self.head_at(w, k);
        assert(ll.head == at);
        self.lemma_ghead_same(a, b);
        self.lemma_metas_same(a, b);
        self.lemma_stacks_same(a, b);
        self.lemma_data_same(a, b);
        assert(tb.gnext =~= ta.gnext);
        assert(ll.table().prevs(a) =~= ta.wprev);
        assert(ll.table().prevs(b) =~= tb.wprev);
        assert(ll.table().nexts(a) =~= ta.wnext);
        assert(ll.table().nexts(b) =~= tb.wnext);
        assert forall|x: int, f: int, v: nat|
            0 <= x < self.num_workers && 0 <= f && f + v <= WORKER_HEADS_SIZE && (x != w || f + v
                <= LIST_HEADS + 4 * k || LIST_HEADS + 4 * k + 4 <= f) implies #[trigger] word(
            b,
            record(HEADER_SIZE as int, WORKER_HEADS_SIZE as int, x, f),
            v,
        ) == word(a, record(HEADER_SIZE as int, WORKER_HEADS_SIZE as int, x, f), v) by {
            crate::memory::lemma_word_same(
                a,
                b,
                record(HEADER_SIZE as int, WORKER_HEADS_SIZE as int, x, f),
                v,
            );
        }
        assert(tb.heads =~= ta.heads.update(10 * w + k, u32_at(b, at)));
        assert(tb.claimed =~= ta.claimed);
        assert(tb.outstanding =~= ta.outstanding);
        assert(tb.rhead =~= ta.rhead);
    }

    /// What a push or pop on the global free list does to the tables.
    pub proof fn lemma_global_op(self, a: Seq<u8>, b: Seq<u8>, slab: int)
        requires
            self.wf(),
            self.fits(a.len() as int),
            self.stacks_fit(self.tables(a).stack),
            0 <= slab < self.num_slabs,
            self.global_list().only_link(a, b, slab),
        ensures
            self.tables(b) == (Tables {
                ghead: self.tables(b).ghead,
                gnext: self.tables(a).gnext.update(slab, self.tables(b).gnext[slab]),
                ..self.tables(a)
            }),
    {
        self.lemma_bounds();
        let ta = self.tables(a);
        let tb = self.tables(b);
        let base = self.free_list_elements_offset as int;
        let at = record(base, NODE_SIZE as int, slab, GLOBAL_NEXT as int);
        lemma_record_within(base, NODE_SIZE as int, self.num_slabs as int, slab, 0, 4);
        self.lemma_workers_same(a, b);
        self.lemma_metas_same(a, b);
        self.lemma_stacks_same(a, b);
        self.lemma_data_same(a, b);
        assert forall|i: int, f: int, v: nat|
            0 <= i < self.num_slabs && 0 <= f && f + v <= NODE_SIZE && (i != slab || 4 <= f) implies #[trigger] word(
            b,
            record(base, NODE_SIZE as int, i, f),
            v,
        ) == word(a, record(base, NODE_SIZE as int, i, f), v) by {
            crate::memory::lemma_word_same(a, b, record(base, NODE_SIZE as int, i, f), v);
        }
        assert(tb.gnext =~= ta.gnext.update(slab, tb.gnext[slab]));
        assert(tb.wprev =~= ta.wprev);
        assert(tb.wnext =~= ta.wnext);
    }

    /// What an operation on the free stack of a slab does to the tables.
    pub proof fn lemma_stack_op(self, a: Seq<u8>, b: Seq<u8>, slab: int, room: int)
        requires
            self.wf(),
            self.fits(a.len() as int),
            0 <= slab < self.num_slabs,
            0 <= room <= self.slab_size / 256,
            self.free_stack(slab).only_stack(a, b, room),
            forall|i: int|
                0 <= i < self.num_slabs && i != slab ==> (#[trigger] self.tables(a).stack[i]).len()
                    <= self.slab_size / 256,
        ensures
            self.tables(b) == (Tables {
                stack: self.tables(a).stack.update(slab, self.free_stack(slab).contents(b)),
                cap: self.tables(a).cap.update(slab, self.free_stack(slab).capacity_value(b)),
                ..self.tables(a)
            }),
    {
        self.lemma_bounds();
        let ta = self.tables(a);
        let tb = self.tables(b);
        let bytes = free_stack_bytes(self.slab_size as int);
        let base = self.slab_free_stacks_offset as int;
        self.lemma_stack_within(slab);
        self.lemma_ghead_same(a, b);
        self.lemma_workers_same(a, b);
        self.lemma_nodes_same(a, b);
        self.lemma_metas_same(a, b);
        self.lemma_data_same(a, b);
        assert forall|i: int| 0 <= i < self.num_slabs && i != slab implies tb.stack[i]
            == ta.stack[i] && tb.cap[i] == ta.cap[i] by {
            self.lemma_stack_within(i);
            if i < slab {
                lemma_record_apart(base, bytes, i, slab);
            } else {
                lemma_record_apart(base, bytes, slab, i);
            }
            assert(self.free_stack(i).contents(a) == ta.stack[i]);
            self.lemma_stack_same(a, b, i);
        }
        assert(record(base, bytes, slab, 2) == self.stack_at(slab) + 2);
        assert(tb.stack =~= ta.stack.update(slab, self.free_stack(slab).contents(b)));
        assert(tb.cap =~= ta.cap.update(slab, self.free_stack(slab).capacity_value(b)));
    }

    /// What a change to the owner or class of a slab does to the tables.
    pub proof fn lemma_meta_op(self, a: Seq<u8>, b: Seq<u8>, slab: int)
        requires
            self.wf(),
            self.fits(a.len() as int),
            self.stacks_fit(self.tables(a).stack),
            0 <= slab < self.num_slabs,
            same_outside(a, b, self.meta_at(slab), self.meta_at(slab) + REMOTE_FREE_STACK_HEAD),
        ensures
            self.tables(b) == (Tables {
                assigned: self.tables(a).assigned.update(slab, self.tables(b).assigned[slab]),
                class: self.tables(a).class.update(slab, self.tables(b).class[slab]),
                ..self.tables(a)
            }),
    {
        self.lemma_bounds();
        let ta = self.tables(a);
        let tb = self.tables(b);
        let base = self.slab_shared_meta_offset as int;
        lemma_record_within(
            base,
            SLAB_META_SIZE as int,
            self.num_slabs as int,
            slab,
            0,
            SLAB_META_SIZE as int,
        );
        self.lemma_ghead_same(a, b);
        self.lemma_workers_same(a, b);
        self.lemma_nodes_same(a, b);
        self.lemma_stacks_same(a, b);
        self.lemma_data_same(a, b);
        crate::records::lemma_record_frame(
            a,
            b,
            base,
            SLAB_META_SIZE as int,
            self.num_slabs as int,
            slab,
            0,
            REMOTE_FREE_STACK_HEAD as int,
        );
        assert(tb.slab_heads =~= ta.slab_heads);
        assert(tb.assigned =~= ta.assigned.update(slab, tb.assigned[slab]));
        assert(tb.class =~= ta.class.update(slab, tb.class[slab]));
    }

    /// What a change to one of a worker's own words does to the tables.
    pub proof fn lemma_worker_op(self, a: Seq<u8>, b: Seq<u8>, w: int, field: int, width: int)
        requires
            self.wf(),
            self.fits(a.len() as int),
            self.stacks_fit(self.tables(a).stack),
            0 <= w < self.num_workers,
            field == CLAIMED && width == 1 || field == OUTSTANDING && width == 8 || field
                == REMOTE_HEAD && width == 8,
            same_outside(a, b, self.worker_at(w) + field, self.worker_at(w) + field + width),
        ensures
            self.tables(b) == (Tables {
                claimed: if field == CLAIMED {
                    self.tables(a).claimed.update(w, u8_at(b, self.worker_at(w) + field))
                } else {
                    self.tables(a).claimed
                },
                outstanding: if field == OUTSTANDING {
                    self.tables(a).outstanding.update(w, u64_at(b, self.worker_at(w) + field))
                } else {
                    self.tables(a).outstanding
                },
                rhead: if field == REMOTE_HEAD {
                    self.tables(a).rhead.update(w, u64_at(b, self.worker_at(w) + field))
                } else {
                    self.tables(a).rhead
                },
                ..self.tables(a)
            }),
    {
        self.lemma_bounds();
        let ta = self.tables(a);
        let tb = self.tables(b);
        let at = self.worker_at(w) + field;
        assert(at == record(HEADER_SIZE as int, WORKER_HEADS_SIZE as int, w, field));
        self.lemma_ghead_same(a, b);
        self.lemma_nodes_same(a, b);
        self.lemma_metas_same(a, b);
        self.lemma_stacks_same(a, b);
        self.lemma_data_same(a, b);
        crate::records::lemma_record_frame(
            a,
            b,
            HEADER_SIZE as int,
            WORKER_HEADS_SIZE as int,
            self.num_workers as int,
            w,
            field,
            width,
        );
        assert(tb.heads =~= ta.heads);
        assert(tb.claimed =~= if field == CLAIMED {
            ta.claimed.update(w, u8_at(b, at))
        } else {
            ta.claimed
        });
        assert(tb.outstanding =~= if field == OUTSTANDING {
            ta.outstanding.update(w, u64_at(b, at))
        } else {
            ta.outstanding
        });
        assert(tb.rhead =~= if field == REMOTE_HEAD {
            ta.rhead.update(w, u64_at(b, at))
        } else {
            ta.rhead
        });
    }

    /// What a change to bytes of the slabs does to the tables.
    pub proof fn lemma_data_op(self, a: Seq<u8>, b: Seq<u8>, lo: int, hi: int)
        requires
            self.wf(),
            self.fits(a.len() as int),
            self.stacks_fit(self.tables(a).stack),
            self.slabs_offset <= lo <= hi <= self.end(),
            same_outside(a, b, lo, hi),
        ensures
            self.tables(b) == (Tables { data: self.tables(b).data, ..self.tables(a) }),
            same_outside(
                self.tables(a).data,
                self.tables(b).data,
                lo - self.slabs_offset,
                hi - self.slabs_offset,
            ),
    {
        self.lemma_bounds();
        self.lemma_ghead_same(a, b);
        self.lemma_workers_same(a, b);
        self.lemma_nodes_same(a, b);
        self.lemma_metas_same(a, b);
        self.lemma_stacks_same(a, b);
    }

    /// A word in the slabs, read from the region or from the bytes of the slabs.
    pub proof fn lemma_data_word(self, mem: Seq<u8>, off: int, width: nat)
        requires
            self.wf(),
            self.fits(mem.len() as int),
            self.slabs_offset <= off,
            off + width <= self.end(),
        ensures
            word(self.tables(mem).data, off - self.slabs_offset, width) == word(mem, off, width),
        decreases width,
    {
        if width > 0 {
            self.lemma_data_word(mem, off + 1, (width - 1) as nat);
        }
    }
}

} // verus!
