//! What allocating, freeing and draining do, slab by slab.
use crate::assigned::init::fresh_state;
use crate::assigned::laws::{lemma_drain_slabs, lemma_list_bound, lemma_put_all};
use crate::assigned::region::{AssignedState, RawLayout};
use crate::index::NULL_U32;
use crate::region::serves;
use crate::size_classes::{class_bytes, class_of, NUM_SIZE_CLASSES};
use crate::state::list_id;
use vstd::prelude::*;

verus! {

/// A slab is in the partial list of a worker and class exactly when that worker owns it for
/// that class and it has a free slot, and on the global free stack exactly when nobody owns it.
proof fn lemma_lists(l: RawLayout, s: AssignedState, w: int, class: int)
    requires
        l.wf(),
        s.ok(l),
        0 <= w < l.num_workers,
        0 <= class < NUM_SIZE_CLASSES,
    ensures
        s.lists[1 + 10 * w + 2 * class].len() > 0 <==> exists|i: int|
            0 <= i < l.num_slabs && s.assigned[i] == w && s.class[i] == class && (
            #[trigger] s.stack[i]).len() > 0,
        s.lists[0].len() > 0 <==> exists|i: int|
            0 <= i < l.num_slabs && #[trigger] s.assigned[i] == NULL_U32,
{
    let slabs = s.slabs_state(l);
    let id = 1 + 10 * w + 2 * class;
    if s.lists[id].len() > 0 {
        let slab = s.lists[id][0] as int;
        assert(slabs.lists[id][0] == slab);
        assert(slabs.places()[slab] == id);
        assert(slabs.slab_ok(l.slabs(), slab));
        assert(s.assigned[slab] == w && s.class[slab] == class && s.stack[slab].len() > 0);
    }
    if s.lists[0].len() > 0 {
        let slab = s.lists[0][0] as int;
        assert(slabs.lists[0][0] == slab);
        assert(slabs.places()[slab] == 0);
        assert(slabs.slab_ok(l.slabs(), slab));
        assert(s.assigned[slab] == NULL_U32);
    }
    if exists|i: int|
        0 <= i < l.num_slabs && s.assigned[i] == w && s.class[i] == class && (
        #[trigger] s.stack[i]).len() > 0 {
        let i = choose|i: int|
            0 <= i < l.num_slabs && s.assigned[i] == w && s.class[i] == class && (
            #[trigger] s.stack[i]).len() > 0;
        assert(slabs.slab_ok(l.slabs(), i));
        assert(slabs.places()[i] == id);
        assert(slabs.lists[slabs.places()[i]].contains(i as u32));
    }
    if exists|i: int| 0 <= i < l.num_slabs && #[trigger] s.assigned[i] == NULL_U32 {
        let i = choose|i: int| 0 <= i < l.num_slabs && #[trigger] s.assigned[i] == NULL_U32;
        assert(slabs.places()[i] == 0);
        assert(slabs.lists[slabs.places()[i]].contains(i as u32));
    }
}

/// A request of up to 4096 bytes is served whenever some slab has no owner, whatever it served
/// before, or the worker owns a slab of the class with a free slot; and only then.
pub proof fn law_served_while_memory_is_left(l: RawLayout, s: AssignedState, w: int, size: int)
    requires
        l.wf(),
        s.ok(l),
        0 <= w < l.num_workers,
        0 <= size <= 4096,
    ensures
        s.can_allocate(w, class_of(size)) <==> (exists|i: int|
            0 <= i < l.num_slabs && #[trigger] s.assigned[i] == NULL_U32) || (exists|i: int|
            0 <= i < l.num_slabs && s.assigned[i] == w && s.class[i] == class_of(size) && (
            #[trigger] s.stack[i]).len() > 0),
{
    lemma_lists(l, s, w, class_of(size));
}

/// The first slab of the global free stack goes to the worker and class that asked for it, with
/// all its slots free and the lowest to be handed out first; no other slab changes.
pub proof fn law_take_slab_effect(l: RawLayout, s: AssignedState, w: int, class: int)
    requires
        l.wf(),
        s.ok(l),
        0 <= w < l.num_workers,
        0 <= class < 5,
        serves(l.slab_size as int, class),
        s.lists[0].len() > 0,
    ensures
        ({
            let after = s.take_slab(l, w, class);
            let slab = s.lists[0][0] as int;
            let slots = l.slab_size as int / class_bytes(class);
            &&& 0 <= slab < l.num_slabs
            &&& s.assigned[slab] == NULL_U32
            &&& after.assigned == s.assigned.update(slab, w as u32)
            &&& after.class == s.class.update(slab, class as u64)
            &&& after.remote == s.remote.update(slab, Seq::empty())
            &&& after.stack[slab].len() == slots
            &&& forall|j: int| 0 <= j < slots ==> #[trigger] after.stack[slab][j] == slots - 1 - j
            &&& forall|i: int|
                0 <= i < l.num_slabs && i != slab ==> #[trigger] after.stack[i] == s.stack[i]
            &&& after.lists[0] == s.lists[0].drop_first()
            &&& after.generation as int == (s.generation + 1) % 0x1_0000_0000
            &&& after.lists[1 + 10 * w + 2 * class][0] == slab
        }),
{
    s.lemma_take_slab(l, w, class);
    l.lemma_ok(s);
    crate::slots::lemma_slots(l.slab_size as int, class);
}

/// An allocation comes from the first slab of the worker and class with a free slot, and is the
/// slot that was freed last; where there is no such slab, it is the first slot of the first slab
/// of the pool, which goes to the worker with all its other slots free. Nothing else changes.
pub proof fn law_allocate_effect(l: RawLayout, s: AssignedState, w: int, class: int)
    requires
        l.wf(),
        s.ok(l),
        0 <= w < l.num_workers,
        0 <= class < 5,
        serves(l.slab_size as int, class),
        s.can_allocate(w, class),
    ensures
        ({
            let after = s.allocate(l, w, class);
            let off = s.next_allocation(l, w, class);
            let slab = (off - l.slab_offset) / l.slab_size as int;
            let bytes = class_bytes(class);
            let slots = l.slab_size as int / bytes;
            let owned = exists|i: int|
                0 <= i < l.num_slabs && s.assigned[i] == w && s.class[i] == class && (
                #[trigger] s.stack[i]).len() > 0;
            &&& 0 <= slab < l.num_slabs
            &&& owned ==> {
                &&& slab == s.lists[1 + 10 * w + 2 * class][0]
                &&& s.assigned[slab] == w
                &&& s.class[slab] == class
                &&& s.stack[slab].len() > 0
                &&& off == l.slab_offset + slab * l.slab_size + s.stack[slab].last() * bytes
                &&& after.stack == s.stack.update(slab, s.stack[slab].drop_last())
                &&& after.assigned == s.assigned
                &&& after.class == s.class
                &&& after.remote == s.remote
                &&& after.lists[0] == s.lists[0]
                &&& after.generation == s.generation
            }
            &&& !owned ==> {
                &&& slab == s.lists[0][0]
                &&& s.assigned[slab] == NULL_U32
                &&& off == l.slab_offset + slab * l.slab_size
                &&& after.assigned == s.assigned.update(slab, w as u32)
                &&& after.class == s.class.update(slab, class as u64)
                &&& after.remote == s.remote.update(slab, Seq::empty())
                &&& after.stack[slab].len() == slots - 1
                &&& forall|j: int|
                    0 <= j < slots - 1 ==> #[trigger] after.stack[slab][j] == slots - 1 - j
                &&& forall|i: int|
                    0 <= i < l.num_slabs && i != slab ==> #[trigger] after.stack[i] == s.stack[i]
                &&& after.lists[0] == s.lists[0].drop_first()
                &&& after.generation as int == (s.generation + 1) % 0x1_0000_0000
            }
        }),
{
    let id = list_id(w, class, false);
    let slabs = s.slabs_state(l);
    lemma_lists(l, s, w, class);
    l.lemma_ok(s);
    crate::slots::lemma_slots(l.slab_size as int, class);
    let (r, slab) = s.ready(l, w, class);
    if s.lists[id].len() > 0 {
        assert(slabs.lists[id][0] == slab);
        assert(slabs.places()[slab] == id);
    } else {
        s.lemma_take_slab(l, w, class);
        l.lemma_ok(r);
    }
    assert(r.slabs_state(l).slab_ok(l.slabs(), slab));
    let index = r.stack[slab].last() as int;
    l.slabs().lemma_slot(slab, class, index);
    r.lemma_pop_slot(l, slab);
    let after = s.allocate(l, w, class);
    assert(after.stack == r.stack.update(slab, r.stack[slab].drop_last()));
}

/// A slot that its owner frees is the next to be handed out from its slab, at once: a slab all
/// of whose slots are free then goes to the front of the pool, unless none was free before, and
/// any other is one that the owner allocates from. What another worker frees is queued on the
/// slab for the owner, and nothing else changes.
pub proof fn law_free_effect(l: RawLayout, s: AssignedState, w: int, off: int)
    requires
        l.wf(),
        s.ok(l),
        s.live(l).contains(off),
    ensures
        ({
            let after = s.free(l, w, off);
            let slab = (off - l.slab_offset) / l.slab_size as int;
            let bytes = class_bytes(s.class[slab] as int);
            let index = (off - l.slab_offset) % l.slab_size as int / bytes;
            let slots = l.slab_size as int / bytes;
            &&& 0 <= slab < l.num_slabs
            &&& s.assigned[slab] != NULL_U32
            &&& 0 <= index < slots
            &&& after.class == s.class
            &&& s.assigned[slab] == w ==> {
                &&& after.stack == s.stack.update(slab, s.stack[slab].push(index as u16))
                &&& after.remote == s.remote
                &&& if s.stack[slab].len() > 0 && s.stack[slab].len() + 1 == slots {
                    &&& after.assigned == s.assigned.update(slab, NULL_U32)
                    &&& after.lists[0] == seq![slab as u32] + s.lists[0]
                    &&& after.generation as int == (s.generation + 1) % 0x1_0000_0000
                } else {
                    &&& after.generation == s.generation
                    &&& after.assigned == s.assigned
                    &&& after.lists[0] == s.lists[0]
                    &&& after.lists[1 + 10 * w + 2 * s.class[slab]].contains(slab as u32)
                }
            }
            &&& s.assigned[slab] != w ==> {
                &&& after.stack == s.stack
                &&& after.assigned == s.assigned
                &&& after.lists == s.lists
                &&& after.generation == s.generation
                &&& after.remote == s.remote.update(slab, seq![index] + s.remote[slab])
            }
        }),
{
    let slab = l.slabs().slab_of(off);
    let slabs = s.slabs_state(l);
    let index = slabs.index_in_slab(l.slabs(), off);
    s.lemma_remote_free(l, off);
    l.lemma_ok(s);
    assert(slabs.slab_ok(l.slabs(), slab));
    crate::slots::lemma_slots(l.slab_size as int, s.class[slab] as int);
    if s.assigned[slab] == w {
        s.lemma_put_slot(l, slab, index);
        let after = s.free(l, w, off);
        let b = after.slabs_state(l);
        assert(b.slab_ok(l.slabs(), slab));
        assert(b.places()[slab] == b.place(slab));
        assert(b.lists[b.places()[slab]].contains(slab as u32));
    }
}

/// An offset is in use exactly when it is that of a slot, of a slab with an owner, that is
/// neither free nor queued for the owner.
pub proof fn law_in_use(l: RawLayout, s: AssignedState, off: int)
    requires
        l.wf(),
        s.ok(l),
    ensures
        s.live(l).contains(off) <==> exists|slab: int, index: int|
            0 <= slab < l.num_slabs && s.assigned[slab] != NULL_U32 && 0 <= index
                < l.slab_size as int / class_bytes(s.class[slab] as int) && off == l.slab_offset
                + slab * l.slab_size + #[trigger] (index * class_bytes(s.class[slab] as int))
                && !s.stack[slab].contains(index as u16) && !s.remote[slab].contains(index),
{
    let slabs = s.slabs_state(l);
    l.lemma_ok(s);
    if s.live(l).contains(off) {
        let slab = l.slabs().slab_of(off);
        let index = slabs.index_in_slab(l.slabs(), off);
        s.lemma_remote_free(l, off);
        assert(off == l.slab_offset + slab * l.slab_size + index * class_bytes(
            s.class[slab] as int,
        ));
    }
    if exists|slab: int, index: int|
        0 <= slab < l.num_slabs && s.assigned[slab] != NULL_U32 && 0 <= index < l.slab_size as int
            / class_bytes(s.class[slab] as int) && off == l.slab_offset + slab * l.slab_size
            + #[trigger] (index * class_bytes(s.class[slab] as int)) && !s.stack[slab].contains(
            index as u16,
        ) && !s.remote[slab].contains(index) {
        let (slab, index) = choose|slab: int, index: int|
            0 <= slab < l.num_slabs && s.assigned[slab] != NULL_U32 && 0 <= index
                < l.slab_size as int / class_bytes(s.class[slab] as int) && off == l.slab_offset
                + slab * l.slab_size + #[trigger] (index * class_bytes(s.class[slab] as int))
                && !s.stack[slab].contains(index as u16) && !s.remote[slab].contains(index);
        assert(slabs.slab_ok(l.slabs(), slab));
        l.slabs().lemma_slot(slab, s.class[slab] as int, index);
    }
}

/// In a new region no slab has an owner, all are in the pool, the lowest first, and nothing is
/// queued.
pub proof fn law_fresh_is_free(l: RawLayout)
    ensures
        ({
            let s = fresh_state(l);
            &&& s.lists[0].len() == l.num_slabs
            &&& s.assigned.len() == l.num_slabs
            &&& forall|i: int| 0 <= i < l.num_slabs ==> #[trigger] s.lists[0][i] == i
            &&& forall|i: int| 0 <= i < l.num_slabs ==> #[trigger] s.assigned[i] == NULL_U32
            &&& forall|i: int| 0 <= i < l.num_slabs ==> (#[trigger] s.remote[i]).len() == 0
        }),
{
}

impl AssignedState {
    /// What was queued on a slab is free, and nothing else changed about it, unless all its
    /// slots are free now and it was given back.
    pub open spec fn reclaimed(self, l: RawLayout, after: AssignedState, i: int) -> bool {
        &&& after.class[i] == self.class[i]
        &&& after.remote[i].len() == 0
        &&& self.remote[i].len() == 0 ==> self.same_slab(after, i)
        &&& after.stack[i] == self.stack[i] + self.remote[i].map_values(|x: int| x as u16)
        &&& self.remote[i].len() > 0 && self.capacity(l, i) >= 2 ==> (after.assigned[i] == NULL_U32
            <==> after.stack[i].len() == self.capacity(l, i))
        &&& after.assigned[i] == self.assigned[i] || after.assigned[i] == NULL_U32
            && after.stack[i].len() == self.capacity(l, i)
        &&& forall|x: u16| #[trigger]
            after.stack[i].contains(x) <==> self.stack[i].contains(x) || self.remote[i].contains(
                x as int,
            )
    }
}

/// What draining puts back is free afterwards.
proof fn lemma_put_all_stack(l: RawLayout, s: AssignedState, slab: int, indexes: Seq<int>)
    requires
        l.wf(),
        s.ok(l),
        0 <= slab < l.num_slabs,
        s.remote[slab].len() == 0,
        indexes.no_duplicates(),
        indexes.len() > 0 ==> s.assigned[slab] != NULL_U32,
        forall|j: int|
            0 <= j < indexes.len() ==> 0 <= #[trigger] indexes[j] < s.capacity(l, slab)
                && !s.stack[slab].contains(indexes[j] as u16),
    ensures
        ({
            let after = s.put_all(l, slab, indexes);
            &&& indexes.len() == 0 ==> after == s
            &&& after.stack[slab] == s.stack[slab] + indexes.map_values(|x: int| x as u16)
            &&& indexes.len() > 0 && s.capacity(l, slab) >= 2 ==> (after.assigned[slab] == NULL_U32
                <==> after.stack[slab].len() == s.capacity(l, slab))
            &&& after.assigned[slab] == s.assigned[slab] || after.assigned[slab] == NULL_U32
                && after.stack[slab].len() == s.capacity(l, slab)
            &&& forall|x: u16| #[trigger]
                after.stack[slab].contains(x) <==> s.stack[slab].contains(x) || indexes.contains(
                    x as int,
                )
        }),
    decreases indexes.len(),
{
    if indexes.len() == 0 {
        assert(s.stack[slab] + indexes.map_values(|x: int| x as u16) =~= s.stack[slab]);
    } else {
        let index = indexes[0];
        let rest = indexes.drop_first();
        let next = s.put_slot(l, slab, index);
        let after = s.put_all(l, slab, indexes);
        s.lemma_put_slot(l, slab, index);
        assert forall|j: int| 0 <= j < rest.len() implies 0 <= #[trigger] rest[j]
            < next.capacity(l, slab) && !next.stack[slab].contains(rest[j] as u16)
            && next.assigned[slab] == s.assigned[slab] by {
            assert(rest[j] == indexes[j + 1]);
            assert(indexes[j + 1] != indexes[0]);
            s.lemma_put_keeps(l, slab, index, rest[j]);
        }
        if rest.len() > 0 {
            let _ = rest[0];
        }
        lemma_put_all_stack(l, next, slab, rest);
        let pushed = s.stack[slab].push(index as u16);
        assert(next.stack[slab] == pushed);
        assert(pushed + rest.map_values(|x: int| x as u16) =~= s.stack[slab] + indexes.map_values(
            |x: int| x as u16,
        ));
        assert forall|x: u16| #[trigger]
            after.stack[slab].contains(x) <==> s.stack[slab].contains(x) || indexes.contains(
                x as int,
            ) by {
            assert(pushed.contains(x) <==> s.stack[slab].contains(x) || x == index as u16) by {
                if s.stack[slab].contains(x) {
                    assert(pushed[s.stack[slab].index_of(x)] == x);
                }
                if x == index as u16 {
                    assert(pushed[pushed.len() - 1] == x);
                }
            }
            if indexes.contains(x as int) && x != index as u16 {
                let j = indexes.index_of(x as int);
                assert(rest[j - 1] == x);
            }
            if rest.contains(x as int) {
                let j = rest.index_of(x as int);
                assert(indexes[j + 1] == x);
            }
        }
        l.lemma_ok(s);
        assert(s.slabs_state(l).slab_ok(l.slabs(), slab));
        crate::slots::lemma_slots(l.slab_size as int, s.class[slab] as int);
        if next.assigned[slab] != s.assigned[slab] {
            assert(rest.len() == 0);
            assert(after == next);
        }
    }
}

/// Draining a slab makes what was queued on it free.
proof fn lemma_drain_slab(l: RawLayout, s: AssignedState, slab: int)
    requires
        l.wf(),
        s.ok(l),
        0 <= slab < l.num_slabs,
    ensures
        s.reclaimed(l, s.drain_slab(l, slab), slab),
        s.drain_slab(l, slab).ok(l),
        forall|i: int|
            0 <= i < l.num_slabs && i != slab ==> #[trigger] s.same_slab(s.drain_slab(l, slab), i),
{
    let emptied = s.without_remote(slab);
    s.lemma_without_remote(l, slab);
    lemma_put_all(l, emptied, slab, s.remote[slab]);
    lemma_put_all_stack(l, emptied, slab, s.remote[slab]);
    crate::assigned::laws::law_drain_slab(l, s, slab);
    let after = s.drain_slab(l, slab);
    assert(after.remote[slab] == Seq::<int>::empty());
    if s.remote[slab].len() == 0 {
        assert(s.remote[slab] =~= Seq::empty());
        assert(s.same_slab(after, slab));
    }
}

/// A slab that was drained stays so.
proof fn lemma_reclaimed_then(
    l: RawLayout,
    s: AssignedState,
    mid: AssignedState,
    after: AssignedState,
    i: int,
)
    requires
        s.reclaimed(l, mid, i) && (mid.reclaimed(l, after, i) || mid.same_slab(after, i))
            || s.same_slab(mid, i) && mid.reclaimed(l, after, i),
    ensures
        s.reclaimed(l, after, i),
{
    if s.reclaimed(l, mid, i) {
        assert(mid.remote[i].len() == 0);
        assert(mid.same_slab(after, i));
        assert(mid.stack[i] + mid.remote[i].map_values(|x: int| x as u16) =~= mid.stack[i]);
    }
}

/// Draining slabs, one after another.
proof fn lemma_drain_each(l: RawLayout, s: AssignedState, slabs: Seq<u32>)
    requires
        l.wf(),
        s.ok(l),
        forall|j: int| 0 <= j < slabs.len() ==> #[trigger] slabs[j] < l.num_slabs,
    ensures
        ({
            let after = s.drain_slabs(l, slabs);
            &&& after.ok(l)
            &&& forall|i: int|
                0 <= i < l.num_slabs && !slabs.contains(i as u32) ==> #[trigger] s.same_slab(after, i)
            &&& forall|i: int|
                0 <= i < l.num_slabs && slabs.contains(i as u32) ==> #[trigger] s.reclaimed(
                    l,
                    after,
                    i,
                )
        }),
    decreases slabs.len(),
{
    lemma_drain_slabs(l, s, slabs);
    if slabs.len() > 0 {
        let first = slabs[0] as int;
        let rest = slabs.drop_first();
        let next = s.drain_slab(l, first);
        let after = s.drain_slabs(l, slabs);
        lemma_drain_slab(l, s, first);
        assert forall|j: int| 0 <= j < rest.len() implies #[trigger] rest[j] < l.num_slabs by {
            assert(rest[j] == slabs[j + 1]);
        }
        lemma_drain_each(l, next, rest);
        assert forall|i: int| 0 <= i < l.num_slabs && slabs.contains(i as u32) implies #[trigger] s.reclaimed(
            l,
            after,
            i,
        ) by {
            if rest.contains(i as u32) {
                assert(next.reclaimed(l, after, i));
            } else {
                assert(next.same_slab(after, i));
                let j = slabs.index_of(i as u32);
                if j > 0 {
                    assert(rest[j - 1] == i as u32);
                }
            }
            if i != first {
                assert(s.same_slab(next, i));
            }
            lemma_reclaimed_then(l, s, next, after, i);
        }
    }
}

/// Draining a class: each slab of the worker and class is reclaimed, the others are unchanged.
proof fn lemma_drain_class_each(l: RawLayout, s: AssignedState, w: int, class: int)
    requires
        l.wf(),
        s.ok(l),
        0 <= w < l.num_workers,
        0 <= class < NUM_SIZE_CLASSES,
    ensures
        ({
            let after = s.drain_class(l, w, class);
            &&& after.ok(l)
            &&& forall|i: int|
                0 <= i < l.num_slabs && !(s.assigned[i] == w && s.class[i] == class)
                    ==> #[trigger] s.same_slab(after, i)
            &&& forall|i: int|
                0 <= i < l.num_slabs && s.assigned[i] == w && s.class[i] == class
                    ==> #[trigger] s.reclaimed(l, after, i)
        }),
{
    let partial = list_id(w, class, false);
    let full = list_id(w, class, true);
    let first = s.drain_slabs(l, s.lists[partial]);
    let after = s.drain_class(l, w, class);
    l.lemma_ok(s);
    lemma_list_bound(l, s, partial);
    lemma_drain_each(l, s, s.lists[partial]);
    l.lemma_ok(first);
    lemma_list_bound(l, first, full);
    lemma_drain_each(l, first, first.lists[full]);
    let a = s.slabs_state(l);
    let b = first.slabs_state(l);
    assert forall|i: int, k: int|
        0 <= i < l.num_slabs && 0 <= k < s.lists.len() && #[trigger] s.lists[k].contains(
            i as u32,
        ) implies a.place(i) == k by {
        let j = s.lists[k].index_of(i as u32);
        assert(a.lists[k][j] == i as u32);
        assert(a.places()[i] == k);
    }
    assert forall|i: int, k: int|
        0 <= i < l.num_slabs && 0 <= k < first.lists.len() && #[trigger] first.lists[k].contains(
            i as u32,
        ) implies b.place(i) == k by {
        let j = first.lists[k].index_of(i as u32);
        assert(b.lists[k][j] == i as u32);
        assert(b.places()[i] == k);
    }
    assert forall|i: int| 0 <= i < l.num_slabs && !(s.assigned[i] == w && s.class[i] == class) implies #[trigger] s.same_slab(
        after,
        i,
    ) by {
        assert(a.slab_ok(l.slabs(), i));
        assert(!s.lists[partial].contains(i as u32));
        assert(s.same_slab(first, i));
        assert(b.slab_ok(l.slabs(), i));
        assert(!first.lists[full].contains(i as u32));
        assert(first.same_slab(after, i));
    }
    assert forall|i: int| 0 <= i < l.num_slabs && s.assigned[i] == w && s.class[i] == class implies #[trigger] s.reclaimed(
        l,
        after,
        i,
    ) by {
        assert(a.slab_ok(l.slabs(), i));
        assert(a.places()[i] == a.place(i));
        assert(a.lists[a.places()[i]].contains(i as u32));
        if s.stack[i].len() > 0 {
            assert(s.lists[partial].contains(i as u32));
            assert(s.reclaimed(l, first, i));
        } else {
            if s.lists[partial].contains(i as u32) {
                assert(a.place(i) == partial);
            }
            assert(s.same_slab(first, i));
            assert(b.places()[i] == b.place(i));
            assert(b.lists[b.places()[i]].contains(i as u32));
            assert(first.lists[full].contains(i as u32));
        }
        if first.lists[full].contains(i as u32) {
            assert(first.reclaimed(l, after, i));
        } else {
            assert(first.same_slab(after, i));
        }
        lemma_reclaimed_then(l, s, first, after, i);
    }
}

proof fn lemma_drain_classes(l: RawLayout, s: AssignedState, w: int, n: int)
    requires
        l.wf(),
        s.ok(l),
        0 <= w < l.num_workers,
        0 <= n <= NUM_SIZE_CLASSES,
    ensures
        ({
            let after = s.drain(l, w, n);
            &&& after.ok(l)
            &&& forall|i: int|
                0 <= i < l.num_slabs && !(s.assigned[i] == w && s.class[i] < n)
                    ==> #[trigger] s.same_slab(after, i)
            &&& forall|i: int|
                0 <= i < l.num_slabs && s.assigned[i] == w && s.class[i] < n
                    ==> #[trigger] s.reclaimed(l, after, i)
        }),
    decreases n,
{
    if n > 0 {
        lemma_drain_classes(l, s, w, n - 1);
        let mid = s.drain(l, w, n - 1);
        let after = s.drain(l, w, n);
        lemma_drain_class_each(l, mid, w, n - 1);
        assert forall|i: int| 0 <= i < l.num_slabs && !(s.assigned[i] == w && s.class[i] < n) implies #[trigger] s.same_slab(
            after,
            i,
        ) by {
            assert(s.same_slab(mid, i));
            assert(mid.same_slab(after, i));
        }
        assert forall|i: int| 0 <= i < l.num_slabs && s.assigned[i] == w && s.class[i] < n implies #[trigger] s.reclaimed(
            l,
            after,
            i,
        ) by {
            if s.class[i] < n - 1 {
                assert(s.reclaimed(l, mid, i));
                assert(mid.same_slab(after, i));
            } else {
                assert(s.same_slab(mid, i));
                assert(mid.reclaimed(l, after, i));
            }
            lemma_reclaimed_then(l, s, mid, after, i);
        }
    }
}

/// Draining the first `n` classes of a worker makes every slot that others have freed in its
/// slabs of these classes a free slot, in the order of the queue, and no other, and leaves nothing queued there. A slab
/// keeps its owner unless all its slots are free; of several slots, when the last is put back,
/// the slab is given back. Slabs of other workers and of other classes stay as they are.
pub proof fn law_drain_effect(l: RawLayout, s: AssignedState, w: int, n: int, i: int)
    requires
        l.wf(),
        s.ok(l),
        0 <= w < l.num_workers,
        0 <= n <= 5,
        0 <= i < l.num_slabs,
    ensures
        ({
            let after = s.drain(l, w, n);
            &&& after.class[i] == s.class[i]
            &&& s.assigned[i] == w && s.class[i] < n ==> {
                &&& after.remote[i].len() == 0
                &&& after.stack[i] == s.stack[i] + s.remote[i].map_values(|x: int| x as u16)
                &&& after.assigned[i] == w || after.assigned[i] == NULL_U32 && after.stack[i].len()
                    == l.slab_size as int / class_bytes(s.class[i] as int)
                &&& s.remote[i].len() > 0 && after.stack[i].len() == l.slab_size as int
                    / class_bytes(s.class[i] as int) >= 2 ==> after.assigned[i] == NULL_U32
                &&& forall|x: u16| #[trigger]
                    after.stack[i].contains(x) <==> s.stack[i].contains(x) || s.remote[i].contains(
                        x as int,
                    )
            }
            &&& !(s.assigned[i] == w && s.class[i] < n) ==> {
                &&& after.remote[i] == s.remote[i]
                &&& after.assigned[i] == s.assigned[i]
                &&& after.stack[i] == s.stack[i]
            }
        }),
{
    lemma_drain_classes(l, s, w, n);
    let after = s.drain(l, w, n);
    if s.assigned[i] == w && s.class[i] < n {
        assert(s.reclaimed(l, after, i));
    } else {
        assert(s.same_slab(after, i));
    }
}

/// The same for one class.
pub proof fn law_drain_class_effect(l: RawLayout, s: AssignedState, w: int, class: int, i: int)
    requires
        l.wf(),
        s.ok(l),
        0 <= w < l.num_workers,
        0 <= class < 5,
        0 <= i < l.num_slabs,
    ensures
        ({
            let after = s.drain_class(l, w, class);
            &&& after.class[i] == s.class[i]
            &&& s.assigned[i] == w && s.class[i] == class ==> {
                &&& after.remote[i].len() == 0
                &&& after.stack[i] == s.stack[i] + s.remote[i].map_values(|x: int| x as u16)
                &&& after.assigned[i] == w || after.assigned[i] == NULL_U32 && after.stack[i].len()
                    == l.slab_size as int / class_bytes(class)
                &&& s.remote[i].len() > 0 && after.stack[i].len() == l.slab_size as int
                    / class_bytes(class) >= 2 ==> after.assigned[i] == NULL_U32
                &&& forall|x: u16| #[trigger]
                    after.stack[i].contains(x) <==> s.stack[i].contains(x) || s.remote[i].contains(
                        x as int,
                    )
            }
            &&& !(s.assigned[i] == w && s.class[i] == class) ==> {
                &&& after.remote[i] == s.remote[i]
                &&& after.assigned[i] == s.assigned[i]
                &&& after.stack[i] == s.stack[i]
            }
        }),
{
    lemma_drain_class_each(l, s, w, class);
    let after = s.drain_class(l, w, class);
    if s.assigned[i] == w && s.class[i] == class {
        assert(s.reclaimed(l, after, i));
    } else {
        assert(s.same_slab(after, i));
    }
}

/// What an operation leaves alone: the bytes of the slabs and what follows them, and the header
/// up to the head of the global free stack.
pub proof fn law_frames(l: RawLayout, a: Seq<u8>, b: Seq<u8>, i: int)
    requires
        l.only_tables(a, b),
        0 <= i < 64 || l.slab_offset <= i < a.len(),
    ensures
        a.len() == b.len(),
        b[i] == a[i],
{
}

/// What the owner takes off the remote free stack of a slab leaves it empty, and changes no other.
pub proof fn law_without_remote(s: AssignedState, slab: int, i: int)
    requires
        0 <= slab < s.remote.len(),
        0 <= i < s.remote.len(),
    ensures
        ({
            let after = s.without_remote(slab);
            &&& after.remote[slab].len() == 0
            &&& i != slab ==> after.remote[i] == s.remote[i]
            &&& after.remote.len() == s.remote.len()
            &&& after == (AssignedState { remote: after.remote, ..s })
        }),
{
}

/// Where the heads of a worker's lists, the metadata of slabs and the slabs lie.
pub proof fn law_list_heads(l: RawLayout, w: int, class: int, slab: int)
    requires
        0 <= w < l.num_workers,
        0 <= class < 5,
        0 <= slab < l.num_slabs,
    ensures
        l.local_list(w, 2 * class).head == (128 + 40 * w + 4 * class) as usize,
        l.local_list(w, 2 * class + 1).head == (148 + 40 * w + 4 * class) as usize,
        l.meta_at(slab) == l.slab_meta_offset + slab * l.slab_meta_size,
        l.slab_at(slab) == l.slab_offset + slab * l.slab_size,
        l.end() == l.slab_offset + l.num_slabs * l.slab_size,
{
}

} // verus!
