//! What the operations keep of the shared state.
use crate::index::NULL_U32;
use crate::region::{serves, CachedLayout};
use crate::size_classes::{class_bytes, NUM_SIZE_CLASSES};
use crate::slots::lemma_slots;
use crate::state::{all_slots, list_id, placed, State};
use vstd::arithmetic::mul::*;
use vstd::prelude::*;
use vstd::set_lib::*;

verus! {

/// As many different numbers below `n` as there are leave none out.
pub proof fn lemma_pigeonhole(s: Seq<u16>, n: int, v: u16)
    requires
        s.no_duplicates(),
        s.len() == n,
        forall|j: int| 0 <= j < s.len() ==> #[trigger] s[j] < n,
        v < n,
    ensures
        s.contains(v),
{
    let t = s.map_values(|x: u16| x as int);
    assert(t.no_duplicates());
    t.unique_seq_to_set();
    vstd::seq_lib::seq_to_set_is_finite(t);
    lemma_int_range(0, n);
    assert(t.to_set().subset_of(set_int_range(0, n)));
    lemma_subset_equality(t.to_set(), set_int_range(0, n));
    assert(set_int_range(0, n).contains(v as int));
    assert(t.contains(v as int));
    let j = choose|j: int| 0 <= j < t.len() && t[j] == v as int;
    assert(s[j] == v);
}

/// A slab leaves the list that holds it.
pub proof fn lemma_placed_unlink(places: Seq<int>, lists: Seq<Seq<u32>>, k: int, x: int)
    requires
        placed(places, lists),
        0 <= k < lists.len(),
        lists[k].no_duplicates(),
        places.len() <= u32::MAX,
        0 <= x < places.len(),
        places[x] == k,
    ensures
        lists[k].contains(x as u32),
        placed(
            places.update(x, -1),
            lists.update(k, lists[k].remove(lists[k].index_of(x as u32))),
        ),
        lists[k].remove(lists[k].index_of(x as u32)).no_duplicates(),
        !lists[k].remove(lists[k].index_of(x as u32)).contains(x as u32),
{
    let list = lists[k];
    assert(lists[places[x]].contains(x as u32));
    let at = list.index_of(x as u32);
    let rest = list.remove(at);
    let places2 = places.update(x, -1);
    let lists2 = lists.update(k, rest);
    assert forall|j: int| 0 <= j < rest.len() implies #[trigger] rest[j] == list[if j < at {
        j
    } else {
        j + 1
    }] by {}
    assert forall|k2: int, j: int|
        0 <= k2 < lists2.len() && 0 <= j < lists2[k2].len() implies (#[trigger] lists2[k2][j])
        < places2.len() && places2[lists2[k2][j] as int] == k2 by {
        if k2 == k {
            let o = if j < at {
                j
            } else {
                j + 1
            };
            assert(lists2[k2][j] == rest[j]);
            assert(lists[k][o] == rest[j]);
            assert(list[o] != list[at]);
        } else {
            assert(lists2[k2][j] == lists[k2][j]);
        }
    }
    assert forall|i: int| 0 <= i < places2.len() && places2[i] != -1 implies 0
        <= #[trigger] places2[i] < lists2.len() && lists2[places2[i]].contains(i as u32) by {
        assert(places[i] == places2[i]);
        assert(lists[places[i]].contains(i as u32));
        if places[i] == k {
            let o = list.index_of(i as u32);
            assert(o != at);
            let j = if o < at {
                o
            } else {
                o - 1
            };
            assert(rest[j] == i as u32);
        }
    }
    assert(rest.no_duplicates()) by {
        assert forall|i: int, j: int|
            0 <= i < rest.len() && 0 <= j < rest.len() && i != j implies rest[i] != rest[j] by {
            let oi = if i < at {
                i
            } else {
                i + 1
            };
            let oj = if j < at {
                j
            } else {
                j + 1
            };
            assert(list[oi] != list[oj]);
        }
    }
    if rest.contains(x as u32) {
        let j = choose|j: int| 0 <= j < rest.len() && rest[j] == x as u32;
        assert(list[if j < at {
            j
        } else {
            j + 1
        }] != list[at]);
    }
}

/// A slab without a place is put in front of a list.
pub proof fn lemma_placed_push(places: Seq<int>, lists: Seq<Seq<u32>>, k: int, x: int)
    requires
        placed(places, lists),
        0 <= k < lists.len(),
        lists[k].no_duplicates(),
        places.len() <= u32::MAX,
        0 <= x < places.len(),
        places[x] == -1,
    ensures
        placed(places.update(x, k), lists.update(k, seq![x as u32] + lists[k])),
        (seq![x as u32] + lists[k]).no_duplicates(),
        !lists[k].contains(x as u32),
{
    let list = lists[k];
    let longer = seq![x as u32] + list;
    let places2 = places.update(x, k);
    let lists2 = lists.update(k, longer);
    assert(longer.no_duplicates()) by {
        assert forall|i: int, j: int|
            0 <= i < longer.len() && 0 <= j < longer.len() && i != j implies longer[i]
            != longer[j] by {
            if i > 0 {
                assert(longer[i] == lists[k][i - 1]);
            }
            if j > 0 {
                assert(longer[j] == lists[k][j - 1]);
            }
        }
    }
    assert forall|k2: int, j: int|
        0 <= k2 < lists2.len() && 0 <= j < lists2[k2].len() implies (#[trigger] lists2[k2][j])
        < places2.len() && places2[lists2[k2][j] as int] == k2 by {
        if k2 == k {
            if j > 0 {
                assert(lists2[k2][j] == lists[k][j - 1]);
            }
        } else {
            assert(lists2[k2][j] == lists[k2][j]);
        }
    }
    assert forall|i: int| 0 <= i < places2.len() && places2[i] != -1 implies 0
        <= #[trigger] places2[i] < lists2.len() && lists2[places2[i]].contains(i as u32) by {
        if i == x {
            assert(longer[0] == x as u32);
        } else {
            assert(places[i] == places2[i]);
            if places[i] == k {
                let j = list.index_of(i as u32);
                assert(longer[j + 1] == i as u32);
            }
        }
    }
    if list.contains(x as u32) {
        let j = list.index_of(x as u32);
        assert(lists[k][j] == x as u32);
    }
}

impl State {
    /// A slot of an owned slab, and that its offset leads back to it.
    pub proof fn lemma_slot(self, l: CachedLayout, off: int)
        requires
            l.sliced(),
            self.ok(l),
            self.is_slot(l, off),
        ensures
            ({
                let slab = l.slab_of(off);
                let index = self.index_in_slab(l, off);
                &&& 0 <= slab < l.num_slabs
                &&& 0 <= index < self.cap[slab]
                &&& self.cap[slab] == l.slots(self.class[slab] as int)
                &&& off == self.slot_at(l, slab, index)
                &&& l.slabs_offset <= off
                &&& off + self.slot_size(slab) <= l.end()
                &&& 0 <= self.owner(l, off) < l.num_workers
                &&& self.slot_size(slab) >= 256
            }),
    {
        let rel = off - l.slabs_offset;
        vstd::arithmetic::div_mod::lemma_div_pos_is_pos(rel, l.slab_size as int);
        let slab = l.slab_of(off);
        assert(self.slab_ok(l, slab));
        l.lemma_slot_of(off, self.class[slab] as int);
    }

    /// The slots of owned slabs do not overlap.
    pub proof fn lemma_apart(self, l: CachedLayout, a: int, b: int)
        requires
            l.sliced(),
            self.ok(l),
            self.is_slot(l, a),
            self.is_slot(l, b),
            a < b,
        ensures
            a + self.slot_size(l.slab_of(a)) <= b,
    {
        self.lemma_slot(l, a);
        self.lemma_slot(l, b);
        assert(self.slab_ok(l, l.slab_of(a)));
        assert(self.slab_ok(l, l.slab_of(b)));
        crate::slots::lemma_slots_apart(
            l,
            l.slab_of(a),
            self.class[l.slab_of(a)] as int,
            self.index_in_slab(l, a),
            l.slab_of(b),
            self.class[l.slab_of(b)] as int,
            self.index_in_slab(l, b),
        );
    }

    /// Different slots of one slab have different indexes.
    proof fn lemma_index_differs(self, l: CachedLayout, a: int, b: int)
        requires
            l.sliced(),
            self.ok(l),
            self.is_slot(l, a),
            self.is_slot(l, b),
            a != b,
            l.slab_of(a) == l.slab_of(b),
        ensures
            self.index_in_slab(l, a) as u16 != self.index_in_slab(l, b) as u16,
    {
        self.lemma_slot(l, a);
        self.lemma_slot(l, b);
    }

    /// The state and another one differ in the tables of one slab at most.
    pub open spec fn same_but_slab(self, other: State, slab: int) -> bool {
        &&& other.assigned.len() == self.assigned.len()
        &&& other.class.len() == self.class.len()
        &&& other.stack.len() == self.stack.len()
        &&& other.cap.len() == self.cap.len()
        &&& forall|i: int|
            0 <= i < self.assigned.len() && i != slab ==> #[trigger] other.assigned[i] == self.assigned[i]
        &&& forall|i: int|
            0 <= i < self.class.len() && i != slab ==> #[trigger] other.class[i] == self.class[i]
        &&& forall|i: int|
            0 <= i < self.stack.len() && i != slab ==> #[trigger] other.stack[i] == self.stack[i]
        &&& forall|i: int|
            0 <= i < self.cap.len() && i != slab ==> #[trigger] other.cap[i] == self.cap[i]
    }

    /// The bytes in use change by what one slab contributes.
    pub proof fn lemma_used(self, other: State, slab: int, worker: int, n: int)
        requires
            0 <= slab,
            forall|i: int|
                0 <= i < n && i != slab ==> #[trigger] other.slab_used(worker, i)
                    == self.slab_used(worker, i),
        ensures
            other.used_bytes(worker, n) == self.used_bytes(worker, n) + if slab < n {
                other.slab_used(worker, slab) - self.slab_used(worker, slab)
            } else {
                0
            },
        decreases n,
    {
        if n > 0 {
            self.lemma_used(other, slab, worker, n - 1);
            let _ = other.slab_used(worker, n - 1);
        }
    }

    /// The bytes in use never exceed the bytes of the slabs.
    pub proof fn lemma_used_bound(self, l: CachedLayout, worker: int, n: int)
        requires
            l.sliced(),
            self.ok(l),
            0 <= worker < l.num_workers,
            0 <= n <= l.num_slabs,
        ensures
            0 <= self.used_bytes(worker, n) <= n * l.slab_size,
            forall|i: int|
                0 <= i < n ==> 0 <= #[trigger] self.slab_used(worker, i) <= self.used_bytes(worker, n),
        decreases n,
    {
        if n > 0 {
            self.lemma_used_bound(l, worker, n - 1);
            let i = n - 1;
            assert(self.slab_ok(l, i));
            if self.assigned[i] == worker {
                lemma_slots(l.slab_size as int, self.class[i] as int);
                let size = self.slot_size(i);
                lemma_mul_inequality(self.cap[i] - self.stack[i].len(), self.cap[i] as int, size);
                lemma_mul_nonnegative(self.cap[i] - self.stack[i].len(), size);
            }
            lemma_mul_is_distributive_add_other_way(l.slab_size as int, n - 1, 1);
        }
    }

    /// A change to one slab that keeps it in order, and keeps what others have freed, keeps
    /// everything in order.
    proof fn lemma_ok_but_slab(self, l: CachedLayout, other: State, slab: int)
        requires
            l.sliced(),
            self.ok(l),
            other.sized(l),
            self.same_but_slab(other, slab),
            0 <= slab < l.num_slabs,
            other.slab_ok(l, slab),
            forall|k: int| 0 <= k < other.lists.len() ==> (#[trigger] other.lists[k]).no_duplicates(),
            placed(other.places(), other.lists),
            other.remote == self.remote,
            forall|w: int, j: int|
                0 <= w < self.remote.len() && 0 <= j < self.remote[w].len() && l.slab_of(
                    #[trigger] self.remote[w][j],
                ) == slab ==> other.is_taken(l, self.remote[w][j]) && other.assigned[slab] == w,
        ensures
            other.ok(l),
    {
        assert forall|i: int| 0 <= i < l.num_slabs implies #[trigger] other.slab_ok(l, i) by {
            assert(self.slab_ok(l, i));
            if i != slab {
                let _ = other.assigned[i];
                let _ = other.class[i];
                let _ = other.stack[i];
                let _ = other.cap[i];
            }
        }
        assert forall|w: int, j: int|
            0 <= w < other.remote.len() && 0 <= j < other.remote[w].len() implies other.is_taken(
            l,
            #[trigger] other.remote[w][j],
        ) && other.owner(l, other.remote[w][j]) == w by {
            let off = self.remote[w][j];
            let i = l.slab_of(off);
            if i != slab {
                let _ = other.assigned[i];
                let _ = other.class[i];
                let _ = other.stack[i];
            }
        }
    }

    /// Taking a slab from the global free list keeps everything in order.
    pub proof fn lemma_take_slab(self, l: CachedLayout, worker: int, class: int)
        requires
            l.sliced(),
            self.ok(l),
            0 <= worker < l.num_workers,
            0 <= class < NUM_SIZE_CLASSES,
            serves(l.slab_size as int, class),
            self.lists[0].len() > 0,
        ensures
            ({
                let slab = self.lists[0][0] as int;
                let after = self.take_slab(l, worker, class);
                &&& slab < l.num_slabs
                &&& self.assigned[slab] == NULL_U32
                &&& after.ok(l)
                &&& self.accounted(l) ==> after.accounted(l)
                &&& self.same_but_slab(after, slab)
                &&& after.live(l) == self.live(l)
                &&& after.place(slab) == list_id(worker, class, false)
                &&& after.lists[list_id(worker, class, false)][0] == slab
                &&& after.stack[slab].len() == l.slots(class) >= 1
                &&& placed(
                    self.places().update(slab, -1),
                    self.lists.update(0, self.lists[0].drop_first()),
                )
            }),
    {
        let slab = self.lists[0][0] as int;
        let after = self.take_slab(l, worker, class);
        let id = list_id(worker, class, false);
        let n = l.slots(class);
        let lists1 = self.lists.update(0, self.lists[0].drop_first());
        lemma_slots(l.slab_size as int, class);
        assert(self.places()[slab] == 0);
        assert(self.assigned[slab] == NULL_U32);
        assert(self.lists[0].index_of(slab as u32) == 0) by {
            let j = self.lists[0].index_of(slab as u32);
            assert(self.lists[0].contains(slab as u32));
            assert(self.lists[0][j] == self.lists[0][0]);
        }
        assert(self.lists[0].remove(0) =~= self.lists[0].drop_first());
        lemma_placed_unlink(self.places(), self.lists, 0, slab);
        assert(lists1[id].no_duplicates());
        lemma_placed_push(self.places().update(slab, -1), lists1, id, slab);
        assert(after.places() =~= self.places().update(slab, -1).update(slab, id));
        assert forall|k: int| 0 <= k < after.lists.len() implies (
        #[trigger] after.lists[k]).no_duplicates() by {
            let _ = self.lists[k];
        }
        assert(after.slab_ok(l, slab)) by {
            assert(self.slab_ok(l, slab));
            assert(after.stack[slab] == all_slots(n));
        }
        self.lemma_ok_but_slab(l, after, slab);
        assert(after.live(l) =~= self.live(l)) by {
            assert forall|off: int| after.live(l).contains(off) implies self.live(l).contains(
                off,
            ) by {
                after.lemma_slot(l, off);
                let index = after.index_in_slab(l, off);
                if l.slab_of(off) == slab {
                    assert(all_slots(n)[n - index - 1] == index as u16);
                    assert(after.stack[slab].contains(index as u16));
                }
            }
            assert forall|off: int| self.live(l).contains(off) implies after.live(l).contains(
                off,
            ) by {
                self.lemma_slot(l, off);
            }
        }
        if self.accounted(l) {
            assert forall|w: int| 0 <= w < l.num_workers implies #[trigger] after.outstanding[w]
                == after.used_bytes(w, l.num_slabs as int) by {
                let _ = self.outstanding[w];
                lemma_mul_basics(class_bytes(class));
                assert(after.slab_used(w, slab) == 0);
                self.lemma_used(after, slab, w, l.num_slabs as int);
            }
        }
    }

    /// Handing out the next free slot of a slab keeps everything in order.
    pub proof fn lemma_pop_slot(self, l: CachedLayout, slab: int)
        requires
            l.sliced(),
            self.ok(l),
            0 <= slab < l.num_slabs,
            self.assigned[slab] != NULL_U32,
            self.stack[slab].len() > 0,
        ensures
            ({
                let after = self.pop_slot(slab);
                let off = self.slot_at(l, slab, self.stack[slab].last() as int);
                &&& after.ok(l)
                &&& self.accounted(l) && l.end() <= u64::MAX ==> after.accounted(l)
                    && self.outstanding[self.assigned[slab] as int] + self.slot_size(slab)
                    <= u64::MAX
                &&& self.same_but_slab(after, slab)
                &&& l.slab_of(off) == slab
                &&& self.is_slot(l, off)
                &&& !self.live(l).contains(off)
                &&& after.live(l) == self.live(l).insert(off)
                &&& l.slabs_offset <= off
                &&& off + self.slot_size(slab) <= l.end()
            }),
    {
        let after = self.pop_slot(slab);
        let worker = self.assigned[slab] as int;
        let class = self.class[slab] as int;
        let index = self.stack[slab].last() as int;
        let off = self.slot_at(l, slab, index);
        let from = list_id(worker, class, false);
        let to = list_id(worker, class, true);
        assert(self.slab_ok(l, slab));
        lemma_slots(l.slab_size as int, class);
        l.lemma_slot(slab, class, index);
        assert(self.places()[slab] == from);
        if self.stack[slab].len() == 1 {
            lemma_placed_unlink(self.places(), self.lists, from, slab);
            let lists1 = self.lists.update(
                from,
                self.lists[from].remove(self.lists[from].index_of(slab as u32)),
            );
            assert(lists1[to] == self.lists[to]);
            lemma_placed_push(self.places().update(slab, -1), lists1, to, slab);
            assert(after.places() =~= self.places().update(slab, -1).update(slab, to));
        } else {
            assert(after.places() =~= self.places());
        }
        assert forall|k: int| 0 <= k < after.lists.len() implies (
        #[trigger] after.lists[k]).no_duplicates() by {
            let _ = self.lists[k];
        }
        let rest = self.stack[slab].drop_last();
        assert(after.stack[slab] == rest);
        assert(!rest.contains(index as u16)) by {
            if rest.contains(index as u16) {
                let j = choose|j: int| 0 <= j < rest.len() && rest[j] == index as u16;
                assert(self.stack[slab][j] == self.stack[slab][rest.len() as int]);
            }
        }
        assert forall|v: u16| #[trigger] rest.contains(v) implies self.stack[slab].contains(v) by {
            let j = choose|j: int| 0 <= j < rest.len() && rest[j] == v;
            assert(self.stack[slab][j] == v);
        }
        assert forall|v: u16|
            v != index as u16 && #[trigger] self.stack[slab].contains(v) implies rest.contains(
            v,
        ) by {
            let j = choose|j: int| 0 <= j < self.stack[slab].len() && self.stack[slab][j] == v;
            assert(rest[j] == v);
        }
        assert(after.slab_ok(l, slab)) by {
            assert forall|j: int| 0 <= j < rest.len() implies #[trigger] rest[j]
                < after.cap[slab] by {
                assert(self.stack[slab][j] == rest[j]);
            }
        }
        self.lemma_used_bound(l, worker, l.num_slabs as int);
        lemma_mul_is_distributive_sub_other_way(
            self.slot_size(slab),
            self.cap[slab] as int,
            self.stack[slab].len() as int,
        );
        let size = self.slot_size(slab);
        let free = self.stack[slab].len() as int;
        assert((self.cap[slab] - (free - 1)) * size == (self.cap[slab] - free) * size + size)
            by (nonlinear_arith);
        self.lemma_ok_but_slab(l, after, slab);
        assert forall|w: int| 0 <= w < l.num_workers implies after.used_bytes(
            w,
            l.num_slabs as int,
        ) == self.used_bytes(w, l.num_slabs as int) + if w == worker {
            size
        } else {
            0
        } by {
            self.lemma_used(after, slab, w, l.num_slabs as int);
        }
        after.lemma_used_bound(l, worker, l.num_slabs as int);
        if self.accounted(l) && l.end() <= u64::MAX {
            assert(self.outstanding[worker] == self.used_bytes(worker, l.num_slabs as int));
            assert forall|w: int| 0 <= w < l.num_workers implies #[trigger] after.outstanding[w]
                == after.used_bytes(w, l.num_slabs as int) by {
                let _ = self.outstanding[w];
            }
        }
        assert(after.live(l) =~= self.live(l).insert(off)) by {
            assert(self.stack[slab].contains(index as u16));
            assert forall|y: int| after.live(l).contains(y) implies self.live(l).insert(
                off,
            ).contains(y) by {
                after.lemma_slot(l, y);
                if l.slab_of(y) == slab && y != off {
                    self.lemma_index_differs(l, y, off);
                }
            }
            assert forall|y: int| self.live(l).insert(off).contains(y) implies after.live(
                l,
            ).contains(y) by {
                if y == off {
                    if self.remote[worker].contains(off) {
                        let j = self.remote[worker].index_of(off);
                        assert(self.is_taken(l, self.remote[worker][j]));
                    }
                } else {
                    self.lemma_slot(l, y);
                    if l.slab_of(y) == slab {
                        self.lemma_index_differs(l, y, off);
                    }
                }
            }
        }
    }

    /// A taken slot that is not the one put back stays taken, and its slab keeps its owner
    /// and class.
    pub proof fn lemma_put_keeps(self, l: CachedLayout, off: int, other: int)
        requires
            l.sliced(),
            self.ok(l),
            self.is_taken(l, off),
            self.is_taken(l, other),
            off != other,
        ensures
            ({
                let after = self.put_slot(l.slab_of(off), self.index_in_slab(l, off));
                &&& after.is_taken(l, other)
                &&& after.owner(l, other) == self.owner(l, other)
                &&& after.class == self.class
            }),
    {
        let slab = l.slab_of(off);
        let index = self.index_in_slab(l, off);
        let after = self.put_slot(slab, index);
        self.lemma_slot(l, off);
        self.lemma_slot(l, other);
        assert(self.slab_ok(l, slab));
        if l.slab_of(other) == slab {
            self.lemma_index_differs(l, off, other);
            let v = self.index_in_slab(l, other) as u16;
            let more = self.stack[slab].push(index as u16);
            assert(!more.contains(v)) by {
                if more.contains(v) {
                    let j = choose|j: int| 0 <= j < more.len() && more[j] == v;
                    assert(j < self.stack[slab].len());
                    assert(self.stack[slab][j] == v);
                }
            }
            if self.stack[slab].len() + 1 == self.cap[slab] {
                assert(more.no_duplicates());
                lemma_pigeonhole(more, self.cap[slab] as int, v);
            }
        }
    }

    /// Putting back a slot that nobody else has freed keeps everything in order.
    pub proof fn lemma_put_slot(self, l: CachedLayout, off: int)
        requires
            l.sliced(),
            self.ok(l),
            self.is_taken(l, off),
            !self.is_pending(l, off),
        ensures
            ({
                let slab = l.slab_of(off);
                let worker = self.owner(l, off);
                let after = self.put_slot(slab, self.index_in_slab(l, off));
                let last = self.stack[slab].len() + 1 == self.cap[slab];
                &&& after.ok(l)
                &&& self.stack[slab].len() < self.cap[slab]
                &&& self.cap[slab] >= 1
                &&& self.same_but_slab(after, slab)
                &&& after.live(l) == self.live(l).remove(off)
                &&& self.no_idle_slab() && l.slab_size >= 4 * 4096 ==> after.no_idle_slab()
                &&& after.used_bytes(worker, l.num_slabs as int) == self.used_bytes(
                    worker,
                    l.num_slabs as int,
                ) - self.slot_size(slab)
                &&& forall|w: int|
                    w != worker ==> #[trigger] after.used_bytes(w, l.num_slabs as int)
                        == self.used_bytes(w, l.num_slabs as int)
            }),
    {
        let slab = l.slab_of(off);
        let index = self.index_in_slab(l, off);
        let after = self.put_slot(slab, index);
        let worker = self.assigned[slab] as int;
        let class = self.class[slab] as int;
        let partial = list_id(worker, class, false);
        let full = list_id(worker, class, true);
        let more = self.stack[slab].push(index as u16);
        self.lemma_slot(l, off);
        assert(self.slab_ok(l, slab));
        lemma_slots(l.slab_size as int, class);
        assert(self.places()[slab] == self.place(slab));
        if self.stack[slab].len() == self.cap[slab] {
            lemma_pigeonhole(self.stack[slab], self.cap[slab] as int, index as u16);
        }
        assert(after.stack[slab] == more);
        let (from, to) = if self.stack[slab].len() == 0 {
            (full, partial)
        } else {
            (partial, 0)
        };
        if self.stack[slab].len() == 0 || self.stack[slab].len() + 1 == self.cap[slab] {
            lemma_placed_unlink(self.places(), self.lists, from, slab);
            let lists1 = self.lists.update(
                from,
                self.lists[from].remove(self.lists[from].index_of(slab as u32)),
            );
            assert(lists1[to] == self.lists[to]);
            lemma_placed_push(self.places().update(slab, -1), lists1, to, slab);
            assert(after.places() =~= self.places().update(slab, -1).update(slab, to));
        } else {
            assert(after.places() =~= self.places());
        }
        assert forall|k: int| 0 <= k < after.lists.len() implies (
        #[trigger] after.lists[k]).no_duplicates() by {
            let _ = self.lists[k];
        }
        assert(after.slab_ok(l, slab)) by {
            assert forall|j: int| 0 <= j < more.len() implies #[trigger] more[j]
                < self.cap[slab] by {
                if j < self.stack[slab].len() {
                    assert(more[j] == self.stack[slab][j]);
                }
            }
            assert(more.no_duplicates());
        }
        assert forall|w: int, j: int|
            0 <= w < self.remote.len() && 0 <= j < self.remote[w].len() && l.slab_of(
                #[trigger] self.remote[w][j],
            ) == slab implies after.is_taken(l, self.remote[w][j]) && after.assigned[slab] == w by {
            let y = self.remote[w][j];
            assert(self.is_taken(l, y));
            assert(self.remote[w].contains(y));
            self.lemma_put_keeps(l, off, y);
        }
        self.lemma_ok_but_slab(l, after, slab);
        let size = self.slot_size(slab);
        let free = self.stack[slab].len() as int;
        assert((self.cap[slab] - (free + 1)) * size == (self.cap[slab] - free) * size - size)
            by (nonlinear_arith);
        assert(after.slab_used(worker, slab) == self.slab_used(worker, slab) - size) by {
            if free + 1 == self.cap[slab] {
                assert(1 * size == size);
            }
        }
        assert forall|w: int| #[trigger]
            after.used_bytes(w, l.num_slabs as int) == self.used_bytes(w, l.num_slabs as int)
                + if w == worker {
                -size
            } else {
                0
            } by {
            self.lemma_used(after, slab, w, l.num_slabs as int);
        }
        assert(after.live(l) =~= self.live(l).remove(off)) by {
            assert forall|y: int| after.live(l).contains(y) implies self.live(l).remove(
                off,
            ).contains(y) by {
                after.lemma_slot(l, y);
                if l.slab_of(y) == slab {
                    assert(more[more.len() - 1] == index as u16);
                    assert forall|v: u16| #[trigger]
                        self.stack[slab].contains(v) implies more.contains(v) by {
                        let j = choose|j: int|
                            0 <= j < self.stack[slab].len() && self.stack[slab][j] == v;
                        assert(more[j] == v);
                    }
                }
            }
            assert forall|y: int| self.live(l).remove(off).contains(y) implies after.live(
                l,
            ).contains(y) by {
                self.lemma_put_keeps(l, off, y);
            }
        }
    }

    /// What the order of a state depends on.
    pub proof fn lemma_same_ok(self, l: CachedLayout, other: State)
        requires
            self.ok(l),
            other == (State {
                generation: other.generation,
                outstanding: other.outstanding,
                remote: other.remote,
                claimed: other.claimed,
                slab_heads: other.slab_heads,
                ..self
            }),
            other.outstanding.len() == l.num_workers,
            other.claimed.len() == l.num_workers,
            other.remote.len() == l.num_workers,
            forall|w: int|
                0 <= w < l.num_workers ==> (#[trigger] other.remote[w] == self.remote[w]
                    || other.remote[w].len() == 0),
        ensures
            other.ok(l),
            forall|w: int| #[trigger]
                other.used_bytes(w, l.num_slabs as int) == self.used_bytes(w, l.num_slabs as int),
            self.accounted(l) && other.outstanding == self.outstanding ==> other.accounted(l),
    {
        assert(other.places() =~= self.places());
        assert forall|i: int| 0 <= i < l.num_slabs implies #[trigger] other.slab_ok(l, i) by {
            assert(self.slab_ok(l, i));
        }
        assert forall|w: int| 0 <= w < other.remote.len() implies (
        #[trigger] other.remote[w]).no_duplicates() by {
            let _ = self.remote[w];
        }
        assert forall|w: int, j: int|
            0 <= w < other.remote.len() && 0 <= j < other.remote[w].len() implies other.is_taken(
            l,
            #[trigger] other.remote[w][j],
        ) && other.owner(l, other.remote[w][j]) == w by {
            assert(other.remote[w] == self.remote[w]);
            assert(self.is_taken(l, self.remote[w][j]));
        }
        assert forall|w: int| #[trigger]
            other.used_bytes(w, l.num_slabs as int) == self.used_bytes(w, l.num_slabs as int) by {
            self.lemma_used(other, 0, w, l.num_slabs as int);
        }
        if self.accounted(l) && other.outstanding == self.outstanding {
            assert forall|w: int| 0 <= w < l.num_workers implies #[trigger] other.outstanding[w]
                == other.used_bytes(w, l.num_slabs as int) by {
                let _ = self.outstanding[w];
            }
        }
    }

    /// Freeing an allocation by its owner keeps everything in order.
    pub proof fn lemma_local_free(self, l: CachedLayout, off: int)
        requires
            l.sliced(),
            self.ok(l),
            self.accounted(l),
            self.is_taken(l, off),
            !self.is_pending(l, off),
        ensures
            ({
                let slab = l.slab_of(off);
                let after = self.local_free(l, off);
                &&& self.outstanding[self.owner(l, off)] >= self.slot_size(slab)
                &&& self.uncount(l, off).ok(l)
                &&& after.ok(l)
                &&& after.accounted(l)
                &&& after.live(l) == self.live(l).remove(off)
                &&& self.no_idle_slab() && l.slab_size >= 4 * 4096 ==> after.no_idle_slab()
                &&& after.remote == self.remote
                &&& after == (State {
                    outstanding: self.uncount(l, off).outstanding,
                    ..self.put_slot(slab, self.index_in_slab(l, off))
                })
            }),
    {
        let slab = l.slab_of(off);
        let worker = self.owner(l, off);
        let counted = self.uncount(l, off);
        let put = self.put_slot(slab, self.index_in_slab(l, off));
        let after = self.local_free(l, off);
        self.lemma_slot(l, off);
        self.lemma_put_slot(l, off);
        put.lemma_used_bound(l, worker, l.num_slabs as int);
        assert(self.outstanding[worker] == self.used_bytes(worker, l.num_slabs as int));
        self.lemma_same_ok(l, counted);
        put.lemma_same_ok(l, after);
        assert forall|w: int| 0 <= w < l.num_workers implies #[trigger] after.outstanding[w]
            == after.used_bytes(w, l.num_slabs as int) by {
            let _ = self.outstanding[w];
            assert(after.used_bytes(w, l.num_slabs as int) == put.used_bytes(
                w,
                l.num_slabs as int,
            ));
        }
        assert(after.live(l) =~= put.live(l));
    }

    /// Freeing allocations by others keeps everything in order.
    pub proof fn lemma_remote_free(self, l: CachedLayout, worker: int, offs: Seq<int>)
        requires
            l.sliced(),
            self.ok(l),
            0 <= worker < l.num_workers,
            offs.no_duplicates(),
            forall|j: int|
                0 <= j < offs.len() ==> self.live(l).contains(#[trigger] offs[j]) && self.owner(
                    l,
                    offs[j],
                ) == worker,
        ensures
            self.remote_free(worker, offs).ok(l),
            self.accounted(l) ==> self.remote_free(worker, offs).accounted(l),
            self.remote_free(worker, offs).live(l) == self.live(l).difference(offs.to_set()),
    {
        let after = self.remote_free(worker, offs);
        let old_list = self.remote[worker];
        let list = after.remote[worker];
        let n = offs.len() as int;
        assert(after.places() =~= self.places());
        assert forall|i: int| 0 <= i < l.num_slabs implies #[trigger] after.slab_ok(l, i) by {
            assert(self.slab_ok(l, i));
        }
        assert forall|w: int| 0 <= w < after.remote.len() implies (
        #[trigger] after.remote[w]).no_duplicates() by {
            let _ = self.remote[w];
            if w == worker {
                assert forall|i: int, j: int|
                    0 <= i < list.len() && 0 <= j < list.len() && i != j implies list[i]
                    != list[j] by {
                    if i < n && j >= n {
                        assert(offs[i] == list[i]);
                        assert(old_list[j - n] == list[j]);
                        assert(old_list.contains(old_list[j - n]));
                        assert(!self.is_pending(l, offs[i]));
                    } else if i >= n && j < n {
                        assert(offs[j] == list[j]);
                        assert(old_list[i - n] == list[i]);
                        assert(old_list.contains(old_list[i - n]));
                        assert(!self.is_pending(l, offs[j]));
                    } else if i < n {
                        assert(offs[i] != offs[j]);
                    } else {
                        assert(old_list[i - n] != old_list[j - n]);
                    }
                }
            }
        }
        assert forall|w: int, j: int|
            0 <= w < after.remote.len() && 0 <= j < after.remote[w].len() implies after.is_taken(
            l,
            #[trigger] after.remote[w][j],
        ) && after.owner(l, after.remote[w][j]) == w by {
            if w == worker && j < n {
                assert(after.remote[w][j] == offs[j]);
            } else if w == worker {
                assert(self.is_taken(l, self.remote[w][j - n]));
                assert(after.remote[w][j] == self.remote[w][j - n]);
            } else {
                assert(self.is_taken(l, self.remote[w][j]));
            }
        }
        assert forall|w: int| #[trigger]
            after.used_bytes(w, l.num_slabs as int) == self.used_bytes(w, l.num_slabs as int) by {
            self.lemma_used(after, 0, w, l.num_slabs as int);
        }
        if self.accounted(l) {
            assert forall|w: int| 0 <= w < l.num_workers implies #[trigger] after.outstanding[w]
                == after.used_bytes(w, l.num_slabs as int) by {
                let _ = self.outstanding[w];
            }
        }
        assert(after.live(l) =~= self.live(l).difference(offs.to_set())) by {
            assert forall|y: int| after.live(l).contains(y) implies self.live(l).difference(
                offs.to_set(),
            ).contains(y) by {
                after.lemma_slot(l, y);
                let w = self.owner(l, y);
                if w == worker {
                    if old_list.contains(y) {
                        let j = old_list.index_of(y);
                        assert(list[n + j] == y);
                    }
                    if offs.contains(y) {
                        let j = offs.index_of(y);
                        assert(list[j] == y);
                    }
                } else if offs.contains(y) {
                    let j = offs.index_of(y);
                    assert(self.owner(l, offs[j]) == worker);
                }
            }
            assert forall|y: int|
                self.live(l).difference(offs.to_set()).contains(y) implies after.live(
                l,
            ).contains(y) by {
                self.lemma_slot(l, y);
                if self.owner(l, y) == worker && list.contains(y) {
                    let j = list.index_of(y);
                    if j < n {
                        assert(offs[j] == y);
                        assert(offs.contains(y));
                    } else {
                        assert(old_list[j - n] == y);
                        assert(old_list.contains(y));
                    }
                }
            }
        }
    }
}

} // verus!
