//! What holds of the allocator as a whole.
use crate::assigned::raw_allocator::RawAllocator;
use crate::assigned::region::{AssignedState, RawLayout};
use crate::index::NULL_U32;
use crate::memory::same_outside;
use crate::region::serves;
use crate::size_classes::{class_bytes, class_of, MAX_SIZE, NUM_SIZE_CLASSES};
use crate::state::list_id;
use vstd::prelude::*;

verus! {

/// Allocations in use lie within the slabs and never overlap.
pub proof fn law_live_apart(l: RawLayout, s: AssignedState, a: int, b: int)
    requires
        l.wf(),
        s.ok(l),
        s.live(l).contains(a),
        s.live(l).contains(b),
        a != b,
    ensures
        l.slab_offset <= a,
        a + class_bytes(s.class[l.slabs().slab_of(a)] as int) <= l.end(),
        a + class_bytes(s.class[l.slabs().slab_of(a)] as int) <= b || b + class_bytes(
            s.class[l.slabs().slab_of(b)] as int,
        ) <= a,
{
    let slabs = s.slabs_state(l);
    slabs.lemma_slot(l.slabs(), a);
    if a < b {
        slabs.lemma_apart(l.slabs(), a, b);
    } else {
        slabs.lemma_apart(l.slabs(), b, a);
    }
}

/// An allocation is new: it was not in use, it starts and ends within the slabs, it holds
/// what was asked for, and it is the only thing that becomes in use.
pub proof fn law_allocate(l: RawLayout, s: AssignedState, w: int, size: int)
    requires
        l.wf(),
        s.ok(l),
        0 <= w < l.num_workers,
        0 <= size <= MAX_SIZE,
        serves(l.slab_size as int, class_of(size)),
        s.can_allocate(w, class_of(size)),
    ensures
        ({
            let class = class_of(size);
            let off = s.next_allocation(l, w, class);
            let after = s.allocate(l, w, class);
            &&& after.ok(l)
            &&& !s.live(l).contains(off)
            &&& after.live(l) == s.live(l).insert(off)
            &&& after.assigned[l.slabs().slab_of(off)] == w
            &&& size <= class_bytes(class)
            &&& l.slab_offset <= off
            &&& off + class_bytes(class) <= l.end()
        }),
{
    let class = class_of(size);
    let id = list_id(w, class, false);
    let (r, slab) = s.ready(l, w, class);
    if s.lists[id].len() > 0 {
        let slabs = s.slabs_state(l);
        assert(slabs.lists[id][0] == s.lists[id][0]);
        assert(slabs.places()[slab] == id);
        assert(slabs.slab_ok(l.slabs(), slab));
    } else {
        s.lemma_take_slab(l, w, class);
    }
    r.lemma_pop_slot(l, slab);
}

/// Freeing an allocation ends its use and nothing else: for its owner at once, for others
/// once the owner has drained it.
pub proof fn law_free(l: RawLayout, s: AssignedState, w: int, off: int)
    requires
        l.wf(),
        s.ok(l),
        s.live(l).contains(off),
    ensures
        s.free(l, w, off).ok(l),
        s.free(l, w, off).live(l) == s.live(l).remove(off),
{
    let slab = l.slabs().slab_of(off);
    let index = s.slabs_state(l).index_in_slab(l.slabs(), off);
    s.lemma_remote_free(l, off);
    if s.assigned[slab] == w {
        s.lemma_put_slot(l, slab, index);
    }
}

impl AssignedState {
    /// Nothing about a slab has changed.
    pub open spec fn same_slab(self, other: AssignedState, i: int) -> bool {
        &&& other.assigned[i] == self.assigned[i]
        &&& other.class[i] == self.class[i]
        &&& other.stack[i] == self.stack[i]
        &&& other.remote[i] == self.remote[i]
    }
}

/// What draining puts back, one slot after another.
pub proof fn lemma_put_all(l: RawLayout, s: AssignedState, slab: int, indexes: Seq<int>)
    requires
        l.wf(),
        s.ok(l),
        0 <= slab < l.num_slabs,
        s.remote[slab].len() == 0,
        indexes.no_duplicates(),
        indexes.len() > 0 ==> s.assigned[slab] != NULL_U32,
        forall|j: int|
            0 <= j < indexes.len() ==> 0 <= #[trigger] indexes[j] < s.capacity(l, slab)
                && !s.stack[slab].contains(indexes[j] as u16),
    ensures
        ({
            let after = s.put_all(l, slab, indexes);
            &&& after.ok(l)
            &&& after.class == s.class
            &&& after.remote == s.remote
            &&& after.assigned[slab] == s.assigned[slab] || after.assigned[slab] == NULL_U32
            &&& forall|i: int| 0 <= i < l.num_slabs && i != slab ==> #[trigger] s.same_slab(after, i)
            &&& forall|off: int|
                after.live(l).contains(off) <==> #[trigger] s.live(l).contains(off) && !(
                l.slabs().slab_of(off) == slab && indexes.contains(
                    s.slabs_state(l).index_in_slab(l.slabs(), off),
                ))
        }),
    decreases indexes.len(),
{
    if indexes.len() > 0 {
        let index = indexes[0];
        let rest = indexes.drop_first();
        let next = s.put_slot(l, slab, index);
        s.lemma_put_slot(l, slab, index);
        assert forall|j: int| 0 <= j < rest.len() implies 0 <= #[trigger] rest[j]
            < next.capacity(l, slab) && !next.stack[slab].contains(rest[j] as u16)
            && next.assigned[slab] != NULL_U32 by {
            assert(rest[j] == indexes[j + 1]);
            assert(indexes[j + 1] != indexes[0]);
            s.lemma_put_keeps(l, slab, index, rest[j]);
        }
        if rest.len() > 0 {
            let _ = rest[0];
        }
        lemma_put_all(l, next, slab, rest);
        let after = s.put_all(l, slab, indexes);
        let freed = l.slabs().slot(slab, s.class[slab] as int, index);
        assert forall|i: int| 0 <= i < l.num_slabs && i != slab implies #[trigger] s.same_slab(
            after,
            i,
        ) by {
            assert(next.same_slab(after, i));
            assert(next.assigned[i] == s.assigned[i]);
        }
        assert forall|off: int|
            after.live(l).contains(off) <==> #[trigger] s.live(l).contains(off) && !(
            l.slabs().slab_of(off) == slab && indexes.contains(
                s.slabs_state(l).index_in_slab(l.slabs(), off),
            )) by {
            assert(next.live(l).contains(off) <==> s.live(l).contains(off) && off != freed);
            let v = s.slabs_state(l).index_in_slab(l.slabs(), off);
            if s.live(l).contains(off) && l.slabs().slab_of(off) == slab {
                s.slabs_state(l).lemma_slot(l.slabs(), off);
                if indexes.contains(v) && v != index {
                    let j = indexes.index_of(v);
                    assert(rest[j - 1] == v);
                }
                if rest.contains(v) {
                    let j = rest.index_of(v);
                    assert(indexes[j + 1] == v);
                }
            }
        }
    }
}

/// Draining a slab ends no use, and leaves nothing waiting for its owner.
pub proof fn law_drain_slab(l: RawLayout, s: AssignedState, slab: int)
    requires
        l.wf(),
        s.ok(l),
        0 <= slab < l.num_slabs,
    ensures
        ({
            let after = s.drain_slab(l, slab);
            &&& after.ok(l)
            &&& after.live(l) == s.live(l)
            &&& after.remote == s.remote.update(slab, Seq::empty())
            &&& after.class == s.class
            &&& after.assigned[slab] == s.assigned[slab] || after.assigned[slab] == NULL_U32
            &&& forall|i: int| 0 <= i < l.num_slabs && i != slab ==> #[trigger] s.same_slab(after, i)
        }),
{
    let emptied = s.without_remote(slab);
    s.lemma_without_remote(l, slab);
    lemma_put_all(l, emptied, slab, s.remote[slab]);
    let after = s.drain_slab(l, slab);
    assert(after.live(l) =~= s.live(l)) by {
        assert forall|off: int| after.live(l).contains(off) <==> s.live(l).contains(off) by {
            assert(emptied.live(l).contains(off) <==> s.slabs_state(l).is_taken(l.slabs(), off)
                && (l.slabs().slab_of(off) == slab || s.live(l).contains(off))) by {
                if s.slabs_state(l).is_taken(l.slabs(), off) {
                    s.slabs_state(l).lemma_slot(l.slabs(), off);
                }
            }
        }
    }
    assert forall|i: int| 0 <= i < l.num_slabs && i != slab implies #[trigger] s.same_slab(
        after,
        i,
    ) by {
        assert(emptied.same_slab(after, i));
    }
}

/// Draining slabs one after another.
pub proof fn lemma_drain_slabs(l: RawLayout, s: AssignedState, slabs: Seq<u32>)
    requires
        l.wf(),
        s.ok(l),
        forall|j: int| 0 <= j < slabs.len() ==> #[trigger] slabs[j] < l.num_slabs,
    ensures
        ({
            let after = s.drain_slabs(l, slabs);
            &&& after.ok(l)
            &&& after.live(l) == s.live(l)
            &&& after.class == s.class
            &&& forall|i: int|
                0 <= i < l.num_slabs && !slabs.contains(i as u32) ==> #[trigger] s.same_slab(after, i)
            &&& forall|i: int|
                0 <= i < l.num_slabs && slabs.contains(i as u32) ==> (
                #[trigger] after.remote[i]).len() == 0
            &&& forall|i: int|
                0 <= i < l.num_slabs ==> #[trigger] after.assigned[i] == s.assigned[i]
                    || after.assigned[i] == NULL_U32
        }),
    decreases slabs.len(),
{
    if slabs.len() > 0 {
        let first = slabs[0] as int;
        let rest = slabs.drop_first();
        let next = s.drain_slab(l, first);
        let after = s.drain_slabs(l, slabs);
        law_drain_slab(l, s, first);
        assert forall|j: int| 0 <= j < rest.len() implies #[trigger] rest[j] < l.num_slabs by {
            assert(rest[j] == slabs[j + 1]);
        }
        lemma_drain_slabs(l, next, rest);
        assert forall|x: u32| rest.contains(x) implies slabs.contains(x) by {
            let j = rest.index_of(x);
            assert(slabs[j + 1] == x);
        }
        assert forall|x: u32| slabs.contains(x) && x != slabs[0] implies rest.contains(x) by {
            let j = slabs.index_of(x);
            assert(rest[j - 1] == x);
        }
        assert forall|i: int|
            0 <= i < l.num_slabs && !slabs.contains(i as u32) implies #[trigger] s.same_slab(
            after,
            i,
        ) by {
            assert(slabs.contains(slabs[0]));
            assert(s.same_slab(next, i));
            assert(next.same_slab(after, i));
        }
        assert forall|i: int| 0 <= i < l.num_slabs && slabs.contains(i as u32) implies (
        #[trigger] after.remote[i]).len() == 0 by {
            if !rest.contains(i as u32) {
                assert(next.same_slab(after, i));
            }
        }
        assert forall|i: int| 0 <= i < l.num_slabs implies #[trigger] after.assigned[i]
            == s.assigned[i] || after.assigned[i] == NULL_U32 by {
            if i != first {
                assert(s.same_slab(next, i));
            }
        }
    }
}

/// Draining a class ends no use, and leaves nothing waiting in the worker's slabs of it.
pub proof fn law_drain_class(l: RawLayout, s: AssignedState, w: int, class: int)
    requires
        l.wf(),
        s.ok(l),
        0 <= w < l.num_workers,
        0 <= class < NUM_SIZE_CLASSES,
    ensures
        ({
            let after = s.drain_class(l, w, class);
            &&& after.ok(l)
            &&& after.live(l) == s.live(l)
            &&& after.class == s.class
            &&& forall|i: int|
                0 <= i < l.num_slabs && (s.remote[i].len() == 0 || after.assigned[i] == w
                    && after.class[i] == class) ==> (#[trigger] after.remote[i]).len() == 0
            &&& forall|i: int|
                0 <= i < l.num_slabs ==> #[trigger] after.assigned[i] == s.assigned[i]
                    || after.assigned[i] == NULL_U32
        }),
{
    let partial = list_id(w, class, false);
    let full = list_id(w, class, true);
    let first = s.drain_slabs(l, s.lists[partial]);
    let after = s.drain_class(l, w, class);
    l.lemma_ok(s);
    lemma_list_bound(l, s, partial);
    lemma_drain_slabs(l, s, s.lists[partial]);
    l.lemma_ok(first);
    lemma_list_bound(l, first, full);
    lemma_drain_slabs(l, first, first.lists[full]);
    assert forall|i: int| 0 <= i < l.num_slabs implies #[trigger] after.assigned[i]
        == s.assigned[i] || after.assigned[i] == NULL_U32 by {
        let _ = first.assigned[i];
    }
    assert forall|i: int|
        0 <= i < l.num_slabs && (s.remote[i].len() == 0 || after.assigned[i] == w
            && after.class[i] == class) implies (#[trigger] after.remote[i]).len() == 0 by {
        if !first.lists[full].contains(i as u32) {
            assert(first.same_slab(after, i));
            if !s.lists[partial].contains(i as u32) {
                assert(s.same_slab(first, i));
                let a = s.slabs_state(l);
                let b = first.slabs_state(l);
                assert(a.places()[i] == a.place(i));
                assert(b.places()[i] == b.place(i));
                assert(a.lists[a.places()[i]].contains(i as u32));
                assert(b.lists[b.places()[i]].contains(i as u32));
            }
        }
    }
}

/// Draining all classes ends no use, and leaves nothing waiting in the worker's slabs: every
/// slot still taken from them is in use.
pub proof fn law_drain(l: RawLayout, s: AssignedState, w: int)
    requires
        l.wf(),
        s.ok(l),
        0 <= w < l.num_workers,
    ensures
        ({
            let after = s.drain(l, w, NUM_SIZE_CLASSES as int);
            &&& after.ok(l)
            &&& after.live(l) == s.live(l)
            &&& forall|i: int|
                0 <= i < l.num_slabs && after.assigned[i] == w ==> (
                #[trigger] after.remote[i]).len() == 0
        }),
{
    lemma_drain(l, s, w, NUM_SIZE_CLASSES as int);
    let after = s.drain(l, w, NUM_SIZE_CLASSES as int);
    assert forall|i: int| 0 <= i < l.num_slabs && after.assigned[i] == w implies (
    #[trigger] after.remote[i]).len() == 0 by {
        assert(after.slabs_state(l).slab_ok(l.slabs(), i));
    }
}

proof fn lemma_drain(l: RawLayout, s: AssignedState, w: int, n: int)
    requires
        l.wf(),
        s.ok(l),
        0 <= w < l.num_workers,
        0 <= n <= NUM_SIZE_CLASSES,
    ensures
        ({
            let after = s.drain(l, w, n);
            &&& after.ok(l)
            &&& after.live(l) == s.live(l)
            &&& forall|i: int|
                0 <= i < l.num_slabs && after.assigned[i] == w && after.class[i] < n ==> (
                #[trigger] after.remote[i]).len() == 0
        }),
    decreases n,
{
    if n > 0 {
        lemma_drain(l, s, w, n - 1);
        let before = s.drain(l, w, n - 1);
        let after = s.drain(l, w, n);
        law_drain_class(l, before, w, n - 1);
        assert forall|i: int|
            0 <= i < l.num_slabs && after.assigned[i] == w && after.class[i] < n implies (
        #[trigger] after.remote[i]).len() == 0 by {
            let _ = after.assigned[i];
            let _ = before.remote[i];
        }
    }
}

/// The slabs of a list are slabs of the region.
pub proof fn lemma_list_bound(l: RawLayout, s: AssignedState, list: int)
    requires
        s.ok(l),
        0 <= list < s.lists.len(),
    ensures
        forall|j: int| 0 <= j < s.lists[list].len() ==> #[trigger] s.lists[list][j] < l.num_slabs,
{
    let slabs = s.slabs_state(l);
    assert forall|j: int| 0 <= j < s.lists[list].len() implies #[trigger] s.lists[list][j]
        < l.num_slabs by {
        assert(slabs.lists[list][j] == s.lists[list][j]);
    }
}

/// Clearing a list returns its slabs and no others.
proof fn lemma_clear_list(l: RawLayout, s: AssignedState, list: int)
    requires
        l.wf(),
        s.ok(l),
        1 <= list < s.lists.len(),
    ensures
        ({
            let after = s.clear_list(list);
            &&& after.ok(l)
            &&& after.lists.len() == s.lists.len()
            &&& after.lists[list].len() == 0
            &&& forall|k: int|
                1 <= k < s.lists.len() && k != list ==> #[trigger] after.lists[k] == s.lists[k]
            &&& forall|i: int|
                0 <= i < l.num_slabs ==> #[trigger] after.assigned[i]
                    == if s.slabs_state(l).place(i) == list {
                    NULL_U32
                } else {
                    s.assigned[i]
                }
            &&& after.class == s.class
            &&& after.stack == s.stack
            &&& after.remote.len() == s.remote.len()
            &&& forall|i: int|
                0 <= i < l.num_slabs ==> #[trigger] after.remote[i]
                    == if s.slabs_state(l).place(i) == list {
                    Seq::empty()
                } else {
                    s.remote[i]
                }
        }),
    decreases s.lists[list].len(),
{
    let slabs = s.slabs_state(l);
    l.lemma_ok(s);
    if s.lists[list].len() == 0 {
        assert forall|i: int| 0 <= i < l.num_slabs implies #[trigger] s.assigned[i]
            == if slabs.place(i) == list {
            NULL_U32
        } else {
            s.assigned[i]
        } by {
            if slabs.place(i) == list {
                assert(slabs.places()[i] == list);
                assert(slabs.lists[slabs.places()[i]].contains(i as u32));
            }
        }
        assert forall|i: int| 0 <= i < l.num_slabs implies #[trigger] s.remote[i]
            == if slabs.place(i) == list {
            Seq::empty()
        } else {
            s.remote[i]
        } by {
            let _ = s.assigned[i];
            if slabs.place(i) == list {
                assert(slabs.places()[i] == list);
                assert(slabs.lists[slabs.places()[i]].contains(i as u32));
            }
        }
    } else {
        let first = s.lists[list][0] as int;
        let next = s.return_first(list);
        s.lemma_return_first(l, list);
        lemma_clear_list(l, next, list);
        let after = s.clear_list(list);
        assert forall|k: int| 1 <= k < s.lists.len() && k != list implies #[trigger] after.lists[k]
            == s.lists[k] by {
            assert(next.lists[k] == s.lists[k]);
        }
        assert forall|i: int| 0 <= i < l.num_slabs implies #[trigger] after.assigned[i]
            == if slabs.place(i) == list {
            NULL_U32
        } else {
            s.assigned[i]
        } by {
            let n = next.slabs_state(l);
            if i == first {
                assert(slabs.places()[i] == list);
                assert(n.place(i) == 0);
            } else {
                assert(n.place(i) == slabs.place(i));
            }
        }
        assert forall|i: int| 0 <= i < l.num_slabs implies #[trigger] after.remote[i]
            == if slabs.place(i) == list {
            Seq::empty()
        } else {
            s.remote[i]
        } by {
            let n = next.slabs_state(l);
            if i == first {
                assert(slabs.places()[i] == list);
                assert(n.place(i) == 0);
            } else {
                assert(n.place(i) == slabs.place(i));
            }
        }
    }
}

/// Clearing a worker takes all its slabs, and no other worker's: they are all free again.
pub proof fn law_clear_worker(l: RawLayout, s: AssignedState, w: int)
    requires
        l.wf(),
        s.ok(l),
        0 <= w < l.num_workers,
    ensures
        ({
            let after = s.clear_worker(w, NUM_SIZE_CLASSES as int);
            &&& after.ok(l)
            &&& after.class == s.class
            &&& after.stack == s.stack
            &&& forall|i: int|
                0 <= i < l.num_slabs ==> #[trigger] after.assigned[i] == if s.assigned[i] == w {
                    NULL_U32
                } else {
                    s.assigned[i]
                }
            &&& forall|i: int|
                0 <= i < l.num_slabs ==> #[trigger] after.remote[i] == if s.assigned[i] == w {
                    Seq::empty()
                } else {
                    s.remote[i]
                }
        }),
{
    lemma_clear_classes(l, s, w, NUM_SIZE_CLASSES as int);
    let slabs = s.slabs_state(l);
    assert forall|i: int| 0 <= i < l.num_slabs implies s.class[i] < NUM_SIZE_CLASSES by {
        assert(slabs.slab_ok(l.slabs(), i));
    }
}

proof fn lemma_clear_classes(l: RawLayout, s: AssignedState, w: int, n: int)
    requires
        l.wf(),
        s.ok(l),
        0 <= w < l.num_workers,
        0 <= n <= NUM_SIZE_CLASSES,
    ensures
        ({
            let after = s.clear_worker(w, n);
            &&& after.ok(l)
            &&& after.lists.len() == s.lists.len()
            &&& after.class == s.class
            &&& after.stack == s.stack
            &&& forall|i: int|
                0 <= i < l.num_slabs ==> #[trigger] after.assigned[i] == if s.assigned[i] == w
                    && s.class[i] < n {
                    NULL_U32
                } else {
                    s.assigned[i]
                }
            &&& forall|i: int|
                0 <= i < l.num_slabs ==> #[trigger] after.remote[i] == if s.assigned[i] == w
                    && s.class[i] < n {
                    Seq::empty()
                } else {
                    s.remote[i]
                }
        }),
    decreases n,
{
    if n > 0 {
        lemma_clear_classes(l, s, w, n - 1);
        let a = s.clear_worker(w, n - 1);
        let partial = list_id(w, n - 1, false);
        let full = list_id(w, n - 1, true);
        l.lemma_ok(s);
        l.lemma_ok(a);
        lemma_clear_list(l, a, partial);
        let b = a.clear_list(partial);
        lemma_clear_list(l, b, full);
        let after = s.clear_worker(w, n);
        assert forall|i: int| 0 <= i < l.num_slabs implies #[trigger] after.assigned[i]
            == if s.assigned[i] == w && s.class[i] < n {
            NULL_U32
        } else {
            s.assigned[i]
        } by {
            assert(a.slabs_state(l).slab_ok(l.slabs(), i));
            assert(b.slabs_state(l).slab_ok(l.slabs(), i));
            let _ = a.assigned[i];
            let _ = b.assigned[i];
        }
        assert forall|i: int| 0 <= i < l.num_slabs implies #[trigger] after.remote[i]
            == if s.assigned[i] == w && s.class[i] < n {
            Seq::empty()
        } else {
            s.remote[i]
        } by {
            assert(a.slabs_state(l).slab_ok(l.slabs(), i));
            assert(b.slabs_state(l).slab_ok(l.slabs(), i));
            let _ = a.assigned[i];
            let _ = b.assigned[i];
            let _ = a.remote[i];
            let _ = b.remote[i];
        }
    }
}

/// Whoever uses an allocation may write all of it: that changes nothing else.
pub proof fn law_user_writes(allocator: RawAllocator, a: Seq<u8>, b: Seq<u8>, off: int)
    requires
        allocator.valid(a),
        allocator.live(a).contains(off),
        same_outside(
            a,
            b,
            off,
            off + class_bytes(
                allocator.state(a).class[allocator.layout(a).slabs().slab_of(off)] as int,
            ),
        ),
    ensures
        allocator.valid(b),
        allocator.state(b) == allocator.state(a),
        allocator.layout(b) == allocator.layout(a),
{
    let l = allocator.layout(a);
    let s = allocator.state(a);
    let slabs = s.slabs_state(l);
    let slab = l.slabs().slab_of(off);
    let class = s.class[slab] as int;
    let size = class_bytes(class);
    let index = slabs.index_in_slab(l.slabs(), off);
    l.lemma_bounds();
    l.lemma_ok(s);
    slabs.lemma_slot(l.slabs(), off);
    s.lemma_remote_free(l, off);
    l.lemma_slot_at(slab, class, index);
    assert forall|j: int| 0 <= j < s.remote[slab].len() implies {
        let at = l.slabs().slot(slab, class, #[trigger] s.remote[slab][j]);
        at + 4 <= off || off + size <= at
    } by {
        let x = s.remote[slab][j];
        assert(s.remote_ok(l, slab));
        assert(0 <= x < s.capacity(l, slab));
        assert(s.remote[slab].contains(x));
        l.lemma_slot_at(slab, class, x);
        l.slabs().lemma_slot(slab, class, x);
        let at = l.slabs().slot(slab, class, x);
        assert(slabs.is_slot(l.slabs(), at));
        if at < off {
            slabs.lemma_apart(l.slabs(), at, off);
        } else if off < at {
            slabs.lemma_apart(l.slabs(), off, at);
        }
    }
    l.lemma_holds_data(a, b, s, slab, off, off + size);
    allocator.lemma_valid(a, b, s);
}

} // verus!
