//! What holds of the allocator as a whole.
use crate::allocator::AllocatorBase;
use crate::index::NULL_U32;
use crate::joining::is_first_free;
use crate::memory::{same_outside, u16_at};
use crate::region::{CachedLayout, REMOTE_FREE_STACK_HEAD};
use crate::size_classes::{class_bytes, class_of, MAX_SIZE, NUM_SIZE_CLASSES};
use crate::state::{list_id, State};
use vstd::arithmetic::mul::*;
use vstd::prelude::*;

verus! {

/// Allocations in use lie within the slabs and never overlap.
pub proof fn law_live_apart(l: CachedLayout, s: State, a: int, b: int)
    requires
        l.wf(),
        s.ok(l),
        s.live(l).contains(a),
        s.live(l).contains(b),
        a != b,
    ensures
        l.slabs_offset <= a,
        a + s.slot_size(l.slab_of(a)) <= l.end(),
        a + s.slot_size(l.slab_of(a)) <= b || b + s.slot_size(l.slab_of(b)) <= a,
{
    s.lemma_slot(l, a);
    if a < b {
        s.lemma_apart(l, a, b);
    } else {
        s.lemma_apart(l, b, a);
    }
}

/// Each slab is in exactly one list: the global free list exactly when no worker owns it,
/// else a list of its owner and class, the full one exactly when it has no free slot.
pub proof fn law_slab_in_one_list(l: CachedLayout, s: State, slab: int, k: int)
    requires
        l.wf(),
        s.ok(l),
        0 <= slab < l.num_slabs,
        0 <= k < s.lists.len(),
    ensures
        s.lists[k].contains(slab as u32) <==> k == s.place(slab),
        s.lists[k].no_duplicates(),
{
    assert(s.slab_ok(l, slab));
    assert(s.places()[slab] == s.place(slab));
    if s.lists[k].contains(slab as u32) {
        let j = s.lists[k].index_of(slab as u32);
        assert(s.lists[k][j] == slab as u32);
        assert(s.places()[s.lists[k][j] as int] == k);
    }
}

/// The slab that the next allocation comes from has a free slot.
proof fn lemma_ready(l: CachedLayout, s: State, w: int, class: int)
    requires
        l.wf(),
        s.ok(l),
        0 <= w < l.num_workers,
        0 <= class < NUM_SIZE_CLASSES,
        s.can_allocate(w, class),
    ensures
        ({
            let (r, slab) = s.ready(l, w, class);
            &&& 0 <= slab < l.num_slabs
            &&& r.ok(l)
            &&& s.accounted(l) ==> r.accounted(l)
            &&& r.live(l) == s.live(l)
            &&& r.assigned[slab] == w
            &&& r.class[slab] == class
            &&& r.stack[slab].len() > 0
            &&& r.remote == s.remote
            &&& r.outstanding == s.outstanding
            &&& forall|y: int| s.is_taken(l, y) ==> #[trigger] r.owner(l, y) == s.owner(l, y)
            &&& r.lists[list_id(w, class, false)][0] == slab
        }),
{
    let id = list_id(w, class, false);
    if s.lists[id].len() > 0 {
        let slab = s.lists[id][0] as int;
        assert(s.places()[slab] == id);
        assert(s.slab_ok(l, slab));
    } else {
        crate::slots::lemma_serves(l.slab_size as int, class);
        s.lemma_take_slab(l, w, class);
        let r = s.take_slab(l, w, class);
        assert forall|y: int| s.is_taken(l, y) implies #[trigger] r.owner(l, y) == s.owner(
            l,
            y,
        ) by {
            s.lemma_slot(l, y);
        }
    }
}

/// An allocation is new: it was not in use and does not wait to be reclaimed, it starts and
/// ends within the slabs, it holds what was asked for, and it is the only thing that becomes
/// in use.
pub proof fn law_allocate(l: CachedLayout, s: State, w: int, size: int)
    requires
        l.wf(),
        l.end() <= u64::MAX,
        s.ok(l),
        s.accounted(l),
        0 <= w < l.num_workers,
        0 < size <= MAX_SIZE,
        s.can_allocate(w, class_of(size)),
    ensures
        ({
            let class = class_of(size);
            let off = s.next_allocation(l, w, class);
            let after = s.allocate(l, w, class);
            &&& after.ok(l)
            &&& after.accounted(l)
            &&& !s.is_taken(l, off)
            &&& !s.live(l).contains(off)
            &&& after.live(l) == s.live(l).insert(off)
            &&& after.owner(l, off) == w
            &&& size <= after.slot_size(l.slab_of(off)) == class_bytes(class)
            &&& l.slabs_offset <= off
            &&& off + class_bytes(class) <= l.end()
            &&& after.outstanding == s.outstanding.update(
                w,
                (s.outstanding[w] + class_bytes(class)) as u64,
            )
            &&& s.outstanding[w] + class_bytes(class) <= u64::MAX
            &&& after.remote == s.remote
            &&& forall|y: int| s.is_taken(l, y) ==> #[trigger] after.owner(l, y) == s.owner(l, y)
        }),
{
    let class = class_of(size);
    lemma_ready(l, s, w, class);
    let (r, slab) = s.ready(l, w, class);
    r.lemma_pop_slot(l, slab);
    let after = s.allocate(l, w, class);
    assert forall|y: int| s.is_taken(l, y) implies #[trigger] after.owner(l, y) == s.owner(
        l,
        y,
    ) by {
        assert(r.owner(l, y) == s.owner(l, y));
    }
    let off = s.next_allocation(l, w, class);
    let index = r.stack[slab].last();
    assert(r.slab_ok(l, slab));
    l.lemma_slot(slab, class, index as int);
    assert(r.stack[slab].contains(index)) by {
        assert(r.stack[slab][r.stack[slab].len() - 1] == index);
    }
    if s.lists[list_id(w, class, false)].len() == 0 {
        crate::slots::lemma_serves(l.slab_size as int, class);
        s.lemma_take_slab(l, w, class);
    }
}

/// A worker allocates in slabs that it owns as long as one has a free slot, and only then
/// takes one from the global pool.
pub proof fn law_owned_slabs_first(l: CachedLayout, s: State, w: int, class: int)
    requires
        l.wf(),
        s.ok(l),
        0 <= w < l.num_workers,
        0 <= class < NUM_SIZE_CLASSES,
        s.can_allocate(w, class),
    ensures
        ({
            let after = s.allocate(l, w, class);
            let slab = l.slab_of(s.next_allocation(l, w, class));
            let owned = exists|i: int|
                0 <= i < l.num_slabs && s.assigned[i] == w && s.class[i] == class && (
                #[trigger] s.stack[i]).len() > 0;
            &&& owned ==> s.assigned[slab] == w && after.lists[0] == s.lists[0]
                && after.generation == s.generation
            &&& !owned ==> s.assigned[slab] == NULL_U32 && after.assigned[slab] == w
                && after.lists[0] == s.lists[0].drop_first()
        }),
{
    let id = list_id(w, class, false);
    lemma_ready(l, s, w, class);
    let (r, slab) = s.ready(l, w, class);
    assert(r.slab_ok(l, slab));
    l.lemma_slot(slab, class, r.stack[slab].last() as int);
    if s.lists[id].len() > 0 {
        assert(s.stack[slab].len() > 0);
    } else {
        crate::slots::lemma_serves(l.slab_size as int, class);
        s.lemma_take_slab(l, w, class);
        assert forall|i: int|
            0 <= i < l.num_slabs && s.assigned[i] == w && s.class[i] == class implies (
        #[trigger] s.stack[i]).len() == 0 by {
            if s.stack[i].len() > 0 {
                assert(s.places()[i] == id);
                assert(s.lists[s.places()[i]].contains(i as u32));
            }
        }
    }
}

/// A slot that its owner frees is available again: on the free stack of its slab, in a list
/// that the owner allocates from, or in a slab that any worker can take.
pub proof fn law_free_makes_available(l: CachedLayout, s: State, off: int)
    requires
        l.wf(),
        s.ok(l),
        s.live(l).contains(off),
    ensures
        ({
            let after = s.local_free(l, off);
            let slab = l.slab_of(off);
            &&& after.stack[slab].contains(s.index_in_slab(l, off) as u16)
            &&& after.lists[0].contains(slab as u32) || after.lists[list_id(
                s.owner(l, off),
                s.class[slab] as int,
                false,
            )].contains(slab as u32)
        }),
{
    let slab = l.slab_of(off);
    let index = s.index_in_slab(l, off);
    s.lemma_slot(l, off);
    let counted = s.uncount(l, off);
    s.lemma_same_ok(l, counted);
    counted.lemma_put_slot(l, off);
    let after = s.local_free(l, off);
    assert(after.stack[slab][after.stack[slab].len() - 1] == index as u16);
    assert(after.places()[slab] == after.place(slab));
    assert(after.lists[after.places()[slab]].contains(slab as u32));
}

/// No worker keeps a slab from which nothing is taken: allocating and freeing keep it so.
pub proof fn law_no_idle_slab(l: CachedLayout, s: State, w: int, class: int, off: int)
    requires
        l.wf(),
        l.end() <= u64::MAX,
        s.ok(l),
        s.accounted(l),
        s.no_idle_slab(),
        0 <= w < l.num_workers,
        0 <= class < NUM_SIZE_CLASSES,
    ensures
        s.can_allocate(w, class) ==> s.allocate(l, w, class).no_idle_slab(),
        s.live(l).contains(off) ==> s.free(l, w, off).no_idle_slab(),
{
    if s.can_allocate(w, class) {
        lemma_ready(l, s, w, class);
        let (r, slab) = s.ready(l, w, class);
        let after = s.allocate(l, w, class);
        r.lemma_pop_slot(l, slab);
        if s.lists[list_id(w, class, false)].len() == 0 {
            crate::slots::lemma_serves(l.slab_size as int, class);
            s.lemma_take_slab(l, w, class);
        }
        assert(r.slab_ok(l, slab));
        assert forall|i: int|
            0 <= i < after.assigned.len() && #[trigger] after.assigned[i]
                != NULL_U32 implies after.stack[i].len() < after.cap[i] by {
            if i != slab {
                let _ = r.assigned[i];
                let _ = s.assigned[i];
                let _ = r.stack[i];
                let _ = r.cap[i];
            }
        }
    }
    if s.live(l).contains(off) {
        s.lemma_slot(l, off);
        if s.owner(l, off) == w {
            s.lemma_local_free(l, off);
        }
    }
}

/// Freeing an allocation ends its use and nothing else: for its owner at once, for others
/// once the owner has reclaimed it.
pub proof fn law_free(l: CachedLayout, s: State, w: int, off: int)
    requires
        l.wf(),
        s.ok(l),
        s.accounted(l),
        0 <= w < l.num_workers,
        s.live(l).contains(off),
    ensures
        ({
            let after = s.free(l, w, off);
            let owner = s.owner(l, off);
            &&& after.ok(l)
            &&& after.accounted(l)
            &&& after.live(l) == s.live(l).remove(off)
            &&& owner == w ==> after.outstanding[w] == s.outstanding[w] - s.slot_size(
                l.slab_of(off),
            )
            &&& owner != w ==> {
                &&& after.outstanding == s.outstanding
                &&& after.stack == s.stack
                &&& after.lists == s.lists
                &&& after.is_taken(l, off)
                &&& after.is_pending(l, off)
            }
        }),
{
    s.lemma_slot(l, off);
    let owner = s.owner(l, off);
    if owner == w {
        s.lemma_local_free(l, off);
    } else {
        s.lemma_remote_free(l, owner, seq![off]);
        assert(s.live(l).difference(seq![off].to_set()) =~= s.live(l).remove(off)) by {
            assert(seq![off].to_set() =~= set![off]) by {
                assert(seq![off][0] == off);
            }
        }
        let list = seq![off] + s.remote[owner];
        assert(list[0] == off);
    }
}

/// An owner that frees makes room: it can allocate from the same class again.
pub proof fn law_free_makes_room(l: CachedLayout, s: State, off: int)
    requires
        l.wf(),
        s.ok(l),
        s.live(l).contains(off),
    ensures
        s.local_free(l, off).can_allocate(s.owner(l, off), s.class[l.slab_of(off)] as int),
{
    let slab = l.slab_of(off);
    s.lemma_slot(l, off);
    assert(s.slab_ok(l, slab));
    let after = s.local_free(l, off);
    let id = list_id(s.owner(l, off), s.class[slab] as int, false);
    if s.stack[slab].len() != 0 && s.stack[slab].len() + 1 != s.cap[slab] {
        assert(s.places()[slab] == id);
        assert(s.lists[s.places()[slab]].contains(slab as u32));
        assert(after.lists[id].len() > 0);
    } else if s.stack[slab].len() == 0 {
        assert(after.lists[id][0] == slab as u32);
    } else {
        assert(after.lists[0][0] == slab as u32);
    }
}

/// Freeing what was just allocated from a slab in use undoes the allocation, so that the
/// next one gets the same memory.
pub proof fn law_allocate_free_restores(l: CachedLayout, s: State, w: int, class: int)
    requires
        l.wf(),
        l.end() <= u64::MAX,
        s.ok(l),
        s.accounted(l),
        s.no_idle_slab(),
        0 <= w < l.num_workers,
        0 <= class < NUM_SIZE_CLASSES,
        s.lists[list_id(w, class, false)].len() > 0,
    ensures
        s.allocate(l, w, class).free(l, w, s.next_allocation(l, w, class)) == s,
{
    lemma_ready(l, s, w, class);
    let id = list_id(w, class, false);
    let full = list_id(w, class, true);
    let slab = s.lists[id][0] as int;
    let off = s.next_allocation(l, w, class);
    let index = s.stack[slab].last() as int;
    let mid = s.allocate(l, w, class);
    let after = mid.free(l, w, off);
    s.lemma_pop_slot(l, slab);
    assert(s.slab_ok(l, slab));
    let _ = s.assigned[slab];
    assert(mid.slab_ok(l, slab));
    l.lemma_slot(slab, class, index);
    assert(mid.index_in_slab(l, off) == index);
    assert(s.stack[slab].drop_last().push(index as u16) =~= s.stack[slab]);
    assert(after.stack =~= s.stack);
    assert(after.outstanding =~= s.outstanding);
    if s.stack[slab].len() == 1 {
        crate::worker_local_list::law_push_then_remove(s.lists[full], slab as u32);
        let k = s.lists[id].index_of(slab as u32);
        assert(s.lists[id].contains(slab as u32));
        assert(s.lists[id][k] == s.lists[id][0]);
        assert(seq![slab as u32] + s.lists[id].remove(0) =~= s.lists[id]);
        crate::transitions::lemma_placed_unlink(s.places(), s.lists, id, slab);
        crate::transitions::lemma_placed_push(
            s.places().update(slab, -1),
            s.lists.update(id, s.lists[id].remove(0)),
            full,
            slab,
        );
        assert(after.lists =~= s.lists);
    }
}

/// What the owner reclaims, one after another.
pub proof fn lemma_local_free_all(l: CachedLayout, s: State, w: int, offs: Seq<int>)
    requires
        l.wf(),
        s.ok(l),
        s.accounted(l),
        0 <= w < l.num_workers,
        s.remote[w].len() == 0,
        offs.no_duplicates(),
        forall|j: int|
            0 <= j < offs.len() ==> s.is_taken(l, #[trigger] offs[j]) && s.owner(l, offs[j]) == w,
    ensures
        ({
            let after = s.local_free_all(l, offs);
            &&& after.ok(l)
            &&& after.accounted(l)
            &&& after.live(l) == s.live(l).difference(offs.to_set())
            &&& after.remote == s.remote
            &&& s.no_idle_slab() ==> after.no_idle_slab()
        }),
    decreases offs.len(),
{
    if offs.len() == 0 {
        assert(s.live(l).difference(offs.to_set()) =~= s.live(l));
    } else {
        let off = offs[0];
        let rest = offs.drop_first();
        let next = s.local_free(l, off);
        assert(!s.is_pending(l, off));
        s.lemma_local_free(l, off);
        assert forall|j: int| 0 <= j < rest.len() implies next.is_taken(l, #[trigger] rest[j])
            && next.owner(l, rest[j]) == w by {
            assert(rest[j] == offs[j + 1]);
            assert(offs[j + 1] != offs[0]);
            s.lemma_put_keeps(l, off, rest[j]);
        }
        lemma_local_free_all(l, next, w, rest);
        assert(s.live(l).remove(off).difference(rest.to_set()) =~= s.live(l).difference(
            offs.to_set(),
        )) by {
            assert forall|y: int| offs.contains(y) <==> (y == off || rest.contains(y)) by {
                if offs.contains(y) && y != off {
                    let j = offs.index_of(y);
                    assert(rest[j - 1] == y);
                }
                if rest.contains(y) {
                    let j = rest.index_of(y);
                    assert(offs[j + 1] == y);
                }
            }
        }
    }
}

/// Reclaiming ends no use: the worker's queue is empty afterwards, every slot still taken
/// from its slabs is in use, and its count of bytes is that of the slots in use.
pub proof fn law_clean(l: CachedLayout, s: State, w: int)
    requires
        l.wf(),
        s.ok(l),
        s.accounted(l),
        0 <= w < l.num_workers,
    ensures
        ({
            let after = s.clean(l, w);
            &&& after.ok(l)
            &&& after.accounted(l)
            &&& after.live(l) == s.live(l)
            &&& after.remote == s.remote.update(w, Seq::empty())
            &&& s.no_idle_slab() ==> after.no_idle_slab()
            &&& forall|off: int|
                after.is_taken(l, off) && after.owner(l, off) == w ==> #[trigger] after.live(
                    l,
                ).contains(off)
        }),
{
    let emptied = State { remote: s.remote.update(w, Seq::empty()), ..s };
    let offs = s.remote[w];
    s.lemma_same_ok(l, emptied);
    assert forall|j: int| 0 <= j < offs.len() implies emptied.is_taken(l, #[trigger] offs[j])
        && emptied.owner(l, offs[j]) == w by {
        assert(s.is_taken(l, s.remote[w][j]));
    }
    lemma_local_free_all(l, emptied, w, offs);
    assert(emptied.live(l).difference(offs.to_set()) =~= s.live(l)) by {
        assert forall|y: int| s.live(l).contains(y) implies emptied.live(l).difference(
            offs.to_set(),
        ).contains(y) by {
            s.lemma_slot(l, y);
            if offs.contains(y) {
                let j = offs.index_of(y);
                assert(s.owner(l, s.remote[w][j]) == w);
            }
        }
        assert forall|y: int|
            emptied.live(l).difference(offs.to_set()).contains(y) implies s.live(l).contains(
            y,
        ) by {
            emptied.lemma_slot(l, y);
        }
    }
}

/// A worker has nothing outstanding exactly when no slot is taken from its slabs.
pub proof fn law_outstanding_zero(l: CachedLayout, s: State, w: int)
    requires
        l.wf(),
        s.ok(l),
        s.accounted(l),
        0 <= w < l.num_workers,
    ensures
        s.outstanding[w] == 0 <==> forall|off: int|
            !(#[trigger] s.is_taken(l, off) && s.owner(l, off) == w),
{
    let n = l.num_slabs as int;
    s.lemma_used_bound(l, w, n);
    assert(s.outstanding[w] == s.used_bytes(w, n));
    if s.outstanding[w] == 0 {
        assert forall|off: int| !(#[trigger] s.is_taken(l, off) && s.owner(l, off) == w) by {
            if s.is_taken(l, off) && s.owner(l, off) == w {
                let slab = l.slab_of(off);
                s.lemma_slot(l, off);
                assert(s.slab_ok(l, slab));
                assert(s.slab_used(w, slab) == 0);
                let free = s.stack[slab].len() as int;
                if free < s.cap[slab] {
                    lemma_mul_strictly_positive(s.cap[slab] - free, s.slot_size(slab));
                }
                crate::transitions::lemma_pigeonhole(
                    s.stack[slab],
                    s.cap[slab] as int,
                    s.index_in_slab(l, off) as u16,
                );
            }
        }
    } else {
        lemma_some_used(l, s, w, n);
        let slab = choose|i: int| 0 <= i < n && #[trigger] s.slab_used(w, i) > 0;
        assert(s.slab_ok(l, slab));
        lemma_mul_basics(s.slot_size(slab));
        lemma_some_taken(s.stack[slab], s.cap[slab] as int);
        let v = choose|v: u16| v < s.cap[slab] && !#[trigger] s.stack[slab].contains(v);
        l.lemma_slot(slab, s.class[slab] as int, v as int);
        let off = s.slot_at(l, slab, v as int);
        assert(s.is_taken(l, off) && s.owner(l, off) == w);
    }
}

proof fn lemma_some_used(l: CachedLayout, s: State, w: int, n: int)
    requires
        l.wf(),
        s.ok(l),
        0 <= w < l.num_workers,
        0 <= n <= l.num_slabs,
        s.used_bytes(w, n) > 0,
    ensures
        exists|i: int| 0 <= i < n && #[trigger] s.slab_used(w, i) > 0,
    decreases n,
{
    if n > 0 {
        if s.slab_used(w, n - 1) > 0 {
        } else {
            s.lemma_used_bound(l, w, n - 1);
            s.lemma_used_bound(l, w, n);
            lemma_some_used(l, s, w, n - 1);
        }
    }
}

/// Fewer numbers than there are leave some out.
proof fn lemma_some_taken(stack: Seq<u16>, n: int)
    requires
        0 <= stack.len() < n <= u16::MAX,
    ensures
        exists|v: u16| v < n && !#[trigger] stack.contains(v),
{
    if forall|v: u16| v < n ==> #[trigger] stack.contains(v) {
        let t = stack.map_values(|x: u16| x as int);
        vstd::set_lib::lemma_int_range(0, n);
        assert(vstd::set_lib::set_int_range(0, n).subset_of(t.to_set())) by {
            assert forall|i: int| vstd::set_lib::set_int_range(0, n).contains(i) implies t.to_set().contains(
                i,
            ) by {
                assert(stack.contains(i as u16));
                let j = stack.index_of(i as u16);
                assert(t[j] == i);
            }
        }
        vstd::seq_lib::seq_to_set_is_finite(t);
        vstd::set_lib::lemma_len_subset(vstd::set_lib::set_int_range(0, n), t.to_set());
        t.lemma_cardinality_of_set();
    }
}

/// Frees of one worker's allocations, published one after another or together, leave the
/// same state.
pub proof fn law_batch_is_sequence(s: State, w: int, first: Seq<int>, then: Seq<int>)
    requires
        0 <= w < s.remote.len(),
    ensures
        s.remote_free(w, first).remote_free(w, then) == s.remote_free(w, then + first),
        s.remote_free_held(
            |v: int|
                if v == w {
                    first
                } else {
                    Seq::empty()
                },
        ) == s.remote_free(w, first),
{
    assert(then + (first + s.remote[w]) =~= then + first + s.remote[w]);
    assert(s.remote_free(w, first).remote_free(w, then).remote =~= s.remote_free(
        w,
        then + first,
    ).remote);
    let held = |v: int|
        if v == w {
            first
        } else {
            Seq::<int>::empty()
        };
    assert forall|v: int| 0 <= v < s.remote.len() implies s.remote_free_held(held).remote[v]
        == s.remote_free(w, first).remote[v] by {
        if v != w {
            assert(Seq::<int>::empty() + s.remote[v] =~= s.remote[v]);
        }
    }
    assert(s.remote_free_held(held).remote =~= s.remote_free(w, first).remote);
}

/// Frees of different workers' allocations can be published in any order.
pub proof fn law_publish_order(s: State, v: int, w: int, a: Seq<int>, b: Seq<int>)
    requires
        0 <= v < s.remote.len(),
        0 <= w < s.remote.len(),
        v != w,
    ensures
        s.remote_free(v, a).remote_free(w, b) == s.remote_free(w, b).remote_free(v, a),
{
    assert(s.remote_free(v, a).remote_free(w, b).remote =~= s.remote_free(w, b).remote_free(
        v,
        a,
    ).remote);
}

/// A worker slot that is taken is not handed out again until it is given back, and then it
/// is, unless an earlier slot is free.
pub proof fn law_claims_distinct(s: State, v: int, w: int)
    requires
        is_first_free(s.claimed, v),
        is_first_free(s.claim(v).claimed, w),
    ensures
        v < w,
        is_first_free(s.claim(v).claim(w).release(v).claimed, v),
{
    if w < v {
        assert(s.claimed[w] != 0);
    }
    let c = s.claim(v).claim(w).release(v).claimed;
    assert forall|u: int| 0 <= u < v implies #[trigger] c[u] != 0 by {
        assert(s.claimed[u] != 0);
    }
}

impl AllocatorBase {
    /// Whoever uses an allocation may write all of it: that changes nothing else.
    pub proof fn law_user_writes(self, a: Seq<u8>, b: Seq<u8>, off: int)
        requires
            self.valid(a),
            self.live(a).contains(off),
            same_outside(a, b, off, off + self.state(a).slot_size(self.layout.slab_of(off))),
        ensures
            self.valid(b),
            self.state(b) == self.state(a),
    {
        let l = self.layout;
        let s = self.state(a);
        let size = s.slot_size(l.slab_of(off));
        s.lemma_slot(l, off);
        self.lemma_fit(s);
        l.lemma_bounds();
        assert forall|v: int, j: int|
            0 <= v < s.remote.len() && 0 <= j < s.remote[v].len() implies (#[trigger] s.remote[v][j]
            + 8 <= off || off + size <= s.remote[v][j]) && l.slabs_offset <= s.remote[v][j]
            && s.remote[v][j] + 8 <= l.end() by {
            let y = s.remote[v][j];
            assert(s.is_taken(l, y) && s.owner(l, y) == v);
            s.lemma_slot(l, y);
            assert(s.remote[v].contains(y));
            if y < off {
                s.lemma_apart(l, y, off);
            } else if off < y {
                s.lemma_apart(l, off, y);
            }
        }
        l.lemma_holds_data(a, b, s, off, off + size);
        self.lemma_in_order(a, b, s);
    }

    /// Pushing an allocation in use onto its slab's own remote free list, which writes the head
    /// of that list and the first two bytes of the allocation, changes nothing else.
    pub proof fn law_slab_list_writes(self, a: Seq<u8>, b: Seq<u8>, off: int)
        requires
            self.valid(a),
            self.live(a).contains(off),
            a.len() == b.len(),
            ({
                let head = self.layout.meta_at(self.layout.slab_of(off)) + REMOTE_FREE_STACK_HEAD;
                forall|i: int|
                    0 <= i < a.len() && !(head <= i < head + 2) && !(off <= i < off + 2)
                        ==> #[trigger] b[i] == a[i]
            }),
        ensures
            self.valid(b),
            ({
                let slab = self.layout.slab_of(off);
                let head = self.layout.meta_at(slab) + REMOTE_FREE_STACK_HEAD;
                self.state(b) == (State {
                    slab_heads: self.state(a).slab_heads.update(slab, u16_at(b, head)),
                    ..self.state(a)
                })
            }),
    {
        let l = self.layout;
        let s = self.state(a);
        let slab = l.slab_of(off);
        let head = l.meta_at(slab) + REMOTE_FREE_STACK_HEAD;
        let m = Seq::new(
            a.len(),
            |i: int|
                if off <= i < off + 2 {
                    b[i]
                } else {
                    a[i]
                },
        );
        s.lemma_slot(l, off);
        l.lemma_read_meta(a, s, slab);
        self.law_user_writes(a, m, off);
        self.lemma_fit(s);
        l.lemma_holds_slab_head(m, b, s, slab);
        let after = State { slab_heads: s.slab_heads.update(slab, u16_at(b, head)), ..s };
        s.lemma_same_ok(l, after);
        self.lemma_in_order(m, b, after);
    }

    /// Operations keep the contents of allocations in use: freeing one writes at most its own
    /// first bytes.
    pub proof fn law_contents_kept(self, a: Seq<u8>, b: Seq<u8>, freed: int, kept: int, i: int)
        requires
            self.valid(a),
            self.live(a).contains(freed),
            self.live(a).contains(kept),
            freed != kept,
            self.layout.only_bytes(a, b, freed, freed + 8) || self.layout.only_tables(a, b),
            kept <= i < kept + self.state(a).slot_size(self.layout.slab_of(kept)),
        ensures
            b[i] == a[i],
    {
        let s = self.state(a);
        s.lemma_slot(self.layout, freed);
        s.lemma_slot(self.layout, kept);
        law_live_apart(self.layout, s, freed, kept);
    }
}

} // verus!
