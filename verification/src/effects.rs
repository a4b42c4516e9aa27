//! What allocating and freeing do, slab by slab.
use crate::index::{NULL_U16, NULL_U32};
use crate::init::initialize::fresh_state;
use crate::memory::{agree, same_outside};
use crate::region::CachedLayout;
use crate::size_classes::{class_bytes, class_of, NUM_SIZE_CLASSES};
use crate::state::{list_id, State};
use vstd::arithmetic::mul::*;
use vstd::prelude::*;

verus! {

/// A slab is in the partial list of a worker and class exactly when that worker owns it for
/// that class and it has a free slot, and in the global free list exactly when nobody owns it.
proof fn lemma_lists(l: CachedLayout, s: State, w: int, class: int)
    requires
        l.wf(),
        s.ok(l),
        0 <= w < l.num_workers,
        0 <= class < NUM_SIZE_CLASSES,
    ensures
        s.lists[1 + 10 * w + 2 * class].len() > 0 <==> exists|i: int|
            0 <= i < l.num_slabs && s.assigned[i] == w && s.class[i] == class && (
            #[trigger] s.stack[i]).len() > 0,
        s.lists[0].len() > 0 <==> exists|i: int|
            0 <= i < l.num_slabs && #[trigger] s.assigned[i] == NULL_U32,
{
    let id = 1 + 10 * w + 2 * class;
    if s.lists[id].len() > 0 {
        let slab = s.lists[id][0] as int;
        assert(s.places()[slab] == id);
        assert(s.slab_ok(l, slab));
        assert(s.assigned[slab] == w && s.class[slab] == class && s.stack[slab].len() > 0);
    }
    if s.lists[0].len() > 0 {
        let slab = s.lists[0][0] as int;
        assert(s.places()[slab] == 0);
        assert(s.slab_ok(l, slab));
        assert(s.assigned[slab] == NULL_U32);
    }
    if exists|i: int|
        0 <= i < l.num_slabs && s.assigned[i] == w && s.class[i] == class && (
        #[trigger] s.stack[i]).len() > 0 {
        let i = choose|i: int|
            0 <= i < l.num_slabs && s.assigned[i] == w && s.class[i] == class && (
            #[trigger] s.stack[i]).len() > 0;
        assert(s.slab_ok(l, i));
        assert(s.places()[i] == id);
        assert(s.lists[s.places()[i]].contains(i as u32));
    }
    if exists|i: int| 0 <= i < l.num_slabs && #[trigger] s.assigned[i] == NULL_U32 {
        let i = choose|i: int| 0 <= i < l.num_slabs && #[trigger] s.assigned[i] == NULL_U32;
        assert(s.places()[i] == 0);
        assert(s.lists[s.places()[i]].contains(i as u32));
    }
}

/// A request of one to 4096 bytes is served whenever some slab has no owner, whatever it served
/// before, or the worker owns a slab of the class with a free slot; and only then.
pub proof fn law_served_while_memory_is_left(l: CachedLayout, s: State, w: int, size: int)
    requires
        l.wf(),
        s.ok(l),
        0 <= w < l.num_workers,
        1 <= size <= 4096,
    ensures
        s.can_allocate(w, class_of(size)) <==> (exists|i: int|
            0 <= i < l.num_slabs && #[trigger] s.assigned[i] == NULL_U32) || (exists|i: int|
            0 <= i < l.num_slabs && s.assigned[i] == w && s.class[i] == class_of(size) && (
            #[trigger] s.stack[i]).len() > 0),
{
    lemma_lists(l, s, w, class_of(size));
}

/// An allocation comes from the first slab of the worker and class with a free slot, and is the
/// slot that was freed last; where there is no such slab, it is the first slot of the first slab
/// of the pool, which goes to the worker with all its other slots free. Nothing else changes but
/// the worker's count of bytes.
pub proof fn law_allocate_effect(l: CachedLayout, s: State, w: int, class: int)
    requires
        l.wf(),
        l.end() <= u64::MAX,
        s.ok(l),
        s.accounted(l),
        0 <= w < l.num_workers,
        0 <= class < 5,
        s.can_allocate(w, class),
    ensures
        ({
            let after = s.allocate(l, w, class);
            let off = s.next_allocation(l, w, class);
            let slab = (off - l.slabs_offset) / l.slab_size as int;
            let bytes = class_bytes(class);
            let slots = l.slab_size as int / bytes;
            let partial = s.lists[1 + 10 * w + 2 * class];
            let owned = exists|i: int|
                0 <= i < l.num_slabs && s.assigned[i] == w && s.class[i] == class && (
                #[trigger] s.stack[i]).len() > 0;
            &&& 0 <= slab < l.num_slabs
            &&& after.remote == s.remote
            &&& after.claimed == s.claimed
            &&& after.slab_heads == s.slab_heads
            &&& after.outstanding.len() == s.outstanding.len()
            &&& forall|v: int|
                0 <= v < l.num_workers ==> #[trigger] after.outstanding[v] == s.outstanding[v] + (
                if v == w {
                    bytes
                } else {
                    0
                })
            &&& owned ==> {
                &&& slab == partial[0]
                &&& s.assigned[slab] == w
                &&& s.class[slab] == class
                &&& s.stack[slab].len() > 0
                &&& off == l.slabs_offset + slab * l.slab_size + s.stack[slab].last() * bytes
                &&& after.stack == s.stack.update(slab, s.stack[slab].drop_last())
                &&& after.assigned == s.assigned
                &&& after.class == s.class
                &&& after.cap == s.cap
                &&& after.lists[0] == s.lists[0]
                &&& after.generation == s.generation
            }
            &&& !owned ==> {
                &&& slab == s.lists[0][0]
                &&& s.assigned[slab] == NULL_U32
                &&& off == l.slabs_offset + slab * l.slab_size
                &&& after.assigned == s.assigned.update(slab, w as u32)
                &&& after.class == s.class.update(slab, class as u64)
                &&& after.cap == s.cap.update(slab, slots as u16)
                &&& after.stack[slab].len() == slots - 1
                &&& forall|j: int|
                    0 <= j < slots - 1 ==> #[trigger] after.stack[slab][j] == slots - 1 - j
                &&& forall|i: int|
                    0 <= i < l.num_slabs && i != slab ==> #[trigger] after.stack[i] == s.stack[i]
                &&& after.lists[0] == s.lists[0].drop_first()
                &&& after.generation as int == (s.generation + 1) % 0x1_0000_0000
            }
        }),
{
    let after = s.allocate(l, w, class);
    let id = list_id(w, class, false);
    let bytes = class_bytes(class);
    let slots = l.slab_size as int / bytes;
    lemma_lists(l, s, w, class);
    crate::slots::lemma_serves(l.slab_size as int, class);
    crate::slots::lemma_slots(l.slab_size as int, class);
    assert(l.slots(class) == slots);
    let (r, slab) = s.ready(l, w, class);
    if s.lists[id].len() > 0 {
        assert(s.places()[slab] == id);
        assert(s.slab_ok(l, slab));
    } else {
        s.lemma_take_slab(l, w, class);
        assert(s.places()[slab] == 0);
        assert(s.slab_ok(l, slab));
    }
    assert(r.slab_ok(l, slab));
    let index = r.stack[slab].last() as int;
    l.lemma_slot(slab, class, index);
    r.lemma_pop_slot(l, slab);
    assert(after.accounted(l));
    assert(r.outstanding == s.outstanding);
    assert forall|v: int| 0 <= v < l.num_workers implies #[trigger] after.outstanding[v]
        == s.outstanding[v] + (if v == w {
        bytes
    } else {
        0
    }) by {
        r.lemma_used_bound(l, w, l.num_slabs as int);
        assert(after.ok(l));
        after.lemma_used_bound(l, w, l.num_slabs as int);
    }
    if s.lists[id].len() > 0 {
        lemma_mul_is_commutative(slab, l.slab_size as int);
    }
}

/// A slot that its owner frees is the next to be handed out from its slab, at once; a slab all
/// of whose slots are free goes to the front of the pool, and any other is one that the owner
/// allocates from. What another worker frees is queued for the owner, and nothing else changes.
pub proof fn law_free_effect(l: CachedLayout, s: State, w: int, off: int)
    requires
        l.wf(),
        s.ok(l),
        s.accounted(l),
        0 <= w < l.num_workers,
        s.live(l).contains(off),
    ensures
        ({
            let after = s.free(l, w, off);
            let slab = (off - l.slabs_offset) / l.slab_size as int;
            let bytes = class_bytes(s.class[slab] as int);
            let index = (off - l.slabs_offset) % l.slab_size as int / bytes;
            let owner = s.assigned[slab] as int;
            &&& 0 <= slab < l.num_slabs
            &&& 0 <= owner < l.num_workers
            &&& 0 <= index < l.slab_size as int / bytes
            &&& after.claimed == s.claimed
            &&& after.slab_heads == s.slab_heads
            &&& after.class == s.class
            &&& after.cap == s.cap
            &&& owner == w ==> {
                &&& after.stack == s.stack.update(slab, s.stack[slab].push(index as u16))
                &&& after.remote == s.remote
                &&& forall|v: int|
                    0 <= v < l.num_workers ==> #[trigger] after.outstanding[v] == s.outstanding[v]
                        - (if v == w {
                        bytes
                    } else {
                        0
                    })
                &&& if s.stack[slab].len() + 1 == l.slab_size as int / bytes {
                    &&& after.assigned == s.assigned.update(slab, NULL_U32)
                    &&& after.lists[0] == seq![slab as u32] + s.lists[0]
                    &&& after.generation as int == (s.generation + 1) % 0x1_0000_0000
                } else {
                    &&& after.generation == s.generation
                    &&& after.assigned == s.assigned
                    &&& after.lists[0] == s.lists[0]
                    &&& after.lists[1 + 10 * w + 2 * s.class[slab]].contains(slab as u32)
                }
            }
            &&& owner != w ==> {
                &&& after.stack == s.stack
                &&& after.assigned == s.assigned
                &&& after.lists == s.lists
                &&& after.outstanding == s.outstanding
                &&& after.generation == s.generation
                &&& after.remote == s.remote.update(owner, seq![off] + s.remote[owner])
            }
        }),
{
    let slab = l.slab_of(off);
    s.lemma_slot(l, off);
    assert(s.slab_ok(l, slab));
    crate::slots::lemma_slots(l.slab_size as int, s.class[slab] as int);
    if s.owner(l, off) == w {
        s.lemma_local_free(l, off);
        let after = s.local_free(l, off);
        assert(after.slab_ok(l, slab));
        assert(after.places()[slab] == after.place(slab));
        if s.stack[slab].len() + 1 != s.cap[slab] {
            assert(after.lists[after.places()[slab]].contains(slab as u32));
        }
    }
}

/// An offset is in use exactly when it is that of a slot, of a slab with an owner, that is
/// neither free nor queued for the owner.
pub proof fn law_in_use(l: CachedLayout, s: State, off: int)
    requires
        l.wf(),
        s.ok(l),
    ensures
        s.live(l).contains(off) <==> exists|slab: int, index: int|
            0 <= slab < l.num_slabs && s.assigned[slab] != NULL_U32 && 0 <= index
                < l.slab_size as int / class_bytes(s.class[slab] as int) && off == l.slabs_offset
                + slab * l.slab_size + #[trigger] (index * class_bytes(s.class[slab] as int))
                && !s.stack[slab].contains(index as u16) && !s.remote[s.assigned[slab] as int].contains(
                off,
            ),
{
    if s.live(l).contains(off) {
        let slab = l.slab_of(off);
        let index = s.index_in_slab(l, off);
        s.lemma_slot(l, off);
        assert(s.slab_ok(l, slab));
        assert(off == l.slabs_offset + slab * l.slab_size + index * class_bytes(
            s.class[slab] as int,
        ));
    }
    if exists|slab: int, index: int|
        0 <= slab < l.num_slabs && s.assigned[slab] != NULL_U32 && 0 <= index < l.slab_size as int
            / class_bytes(s.class[slab] as int) && off == l.slabs_offset + slab * l.slab_size
            + #[trigger] (index * class_bytes(s.class[slab] as int)) && !s.stack[slab].contains(
            index as u16,
        ) && !s.remote[s.assigned[slab] as int].contains(off) {
        let (slab, index) = choose|slab: int, index: int|
            0 <= slab < l.num_slabs && s.assigned[slab] != NULL_U32 && 0 <= index
                < l.slab_size as int / class_bytes(s.class[slab] as int) && off == l.slabs_offset
                + slab * l.slab_size + #[trigger] (index * class_bytes(s.class[slab] as int))
                && !s.stack[slab].contains(index as u16) && !s.remote[s.assigned[slab] as int].contains(
                off,
            );
        assert(s.slab_ok(l, slab));
        l.lemma_slot(slab, s.class[slab] as int, index);
    }
}

/// The slots of a slab among some allocations, in order.
pub open spec fn slots_among(l: CachedLayout, class: Seq<u64>, offs: Seq<int>, slab: int) -> Seq<u16>
    decreases offs.len(),
{
    if offs.len() == 0 {
        Seq::empty()
    } else {
        let rest = slots_among(l, class, offs.drop_first(), slab);
        let from = offs[0] - l.slabs_offset;
        if from / l.slab_size as int == slab {
            seq![(from % l.slab_size as int / class_bytes(class[slab] as int)) as u16] + rest
        } else {
            rest
        }
    }
}

/// What the owner reclaims, one after another, is put on the free stacks in that order.
proof fn lemma_reclaim_order(l: CachedLayout, s: State, w: int, offs: Seq<int>, i: int)
    requires
        l.wf(),
        s.ok(l),
        s.accounted(l),
        0 <= w < l.num_workers,
        s.remote[w].len() == 0,
        offs.no_duplicates(),
        forall|j: int|
            0 <= j < offs.len() ==> s.is_taken(l, #[trigger] offs[j]) && s.owner(l, offs[j]) == w,
        0 <= i < l.num_slabs,
    ensures
        s.local_free_all(l, offs).stack[i] == s.stack[i] + slots_among(l, s.class, offs, i),
    decreases offs.len(),
{
    if offs.len() == 0 {
        assert(s.stack[i] + Seq::<u16>::empty() =~= s.stack[i]);
    } else {
        let off = offs[0];
        let rest = offs.drop_first();
        let next = s.local_free(l, off);
        s.lemma_slot(l, off);
        assert(!s.is_pending(l, off));
        s.lemma_local_free(l, off);
        law_free_effect(l, s, w, off);
        assert forall|j: int| 0 <= j < rest.len() implies next.is_taken(l, #[trigger] rest[j])
            && next.owner(l, rest[j]) == w by {
            assert(rest[j] == offs[j + 1]);
            assert(offs[j + 1] != offs[0]);
            s.lemma_put_keeps(l, off, rest[j]);
        }
        lemma_reclaim_order(l, next, w, rest, i);
        let tail = slots_among(l, s.class, rest, i);
        if l.slab_of(off) == i {
            let index = s.index_in_slab(l, off) as u16;
            assert(s.stack[i].push(index) + tail =~= s.stack[i] + (seq![index] + tail));
        }
    }
}

/// What the owner reclaims, one after another, is on the free stacks afterwards, and nothing else
/// is that was not there before.
proof fn lemma_reclaim(l: CachedLayout, s: State, w: int, offs: Seq<int>)
    requires
        l.wf(),
        s.ok(l),
        s.accounted(l),
        0 <= w < l.num_workers,
        s.remote[w].len() == 0,
        offs.no_duplicates(),
        forall|j: int|
            0 <= j < offs.len() ==> s.is_taken(l, #[trigger] offs[j]) && s.owner(l, offs[j]) == w,
    ensures
        ({
            let after = s.local_free_all(l, offs);
            &&& after.class == s.class
            &&& after.cap == s.cap
            &&& after.claimed == s.claimed
            &&& after.slab_heads == s.slab_heads
            &&& after.outstanding.len() == s.outstanding.len()
            &&& forall|v: int|
                0 <= v < l.num_workers && v != w ==> #[trigger] after.outstanding[v]
                    == s.outstanding[v]
            &&& forall|i: int|
                0 <= i < l.num_slabs && s.assigned[i] != w ==> #[trigger] after.assigned[i]
                    == s.assigned[i] && after.stack[i] == s.stack[i]
            &&& forall|i: int|
                0 <= i < l.num_slabs ==> #[trigger] after.assigned[i] == s.assigned[i]
                    || after.assigned[i] == NULL_U32
            &&& forall|i: int, x: u16|
                0 <= i < l.num_slabs ==> (#[trigger] after.stack[i].contains(x)
                    <==> s.stack[i].contains(x) || exists|j: int|
                    0 <= j < offs.len() && l.slab_of(#[trigger] offs[j]) == i && s.index_in_slab(
                        l,
                        offs[j],
                    ) as u16 == x)
        }),
    decreases offs.len(),
{
    let after = s.local_free_all(l, offs);
    if offs.len() > 0 {
        let off = offs[0];
        let rest = offs.drop_first();
        let next = s.local_free(l, off);
        let slab = l.slab_of(off);
        let index = s.index_in_slab(l, off) as u16;
        s.lemma_slot(l, off);
        assert(!s.is_pending(l, off));
        s.lemma_local_free(l, off);
        law_free_effect(l, s, w, off);
        assert forall|j: int| 0 <= j < rest.len() implies next.is_taken(l, #[trigger] rest[j])
            && next.owner(l, rest[j]) == w by {
            assert(rest[j] == offs[j + 1]);
            assert(offs[j + 1] != offs[0]);
            s.lemma_put_keeps(l, off, rest[j]);
        }
        lemma_reclaim(l, next, w, rest);
        assert forall|v: int| 0 <= v < l.num_workers && v != w implies #[trigger] after.outstanding[v]
            == s.outstanding[v] by {
            let _ = next.outstanding[v];
        }
        assert forall|i: int| 0 <= i < l.num_slabs && s.assigned[i] != w implies #[trigger] after.assigned[i]
            == s.assigned[i] && after.stack[i] == s.stack[i] by {
            assert(next.assigned[i] == s.assigned[i]);
        }
        assert forall|i: int| 0 <= i < l.num_slabs implies #[trigger] after.assigned[i]
            == s.assigned[i] || after.assigned[i] == NULL_U32 by {
            let _ = next.assigned[i];
        }
        assert forall|i: int, x: u16| 0 <= i < l.num_slabs implies (#[trigger] after.stack[i].contains(
            x,
        ) <==> s.stack[i].contains(x) || exists|j: int|
            0 <= j < offs.len() && l.slab_of(#[trigger] offs[j]) == i && s.index_in_slab(
                l,
                offs[j],
            ) as u16 == x) by {
            assert(after.stack[i].contains(x) <==> next.stack[i].contains(x) || exists|j: int|
                0 <= j < rest.len() && l.slab_of(#[trigger] rest[j]) == i && next.index_in_slab(
                    l,
                    rest[j],
                ) as u16 == x);
            let pushed = s.stack[slab].push(index);
            if i == slab {
                assert(pushed.contains(x) <==> s.stack[slab].contains(x) || x == index) by {
                    if s.stack[slab].contains(x) {
                        assert(pushed[s.stack[slab].index_of(x)] == x);
                    }
                    if x == index {
                        assert(pushed[pushed.len() - 1] == x);
                    }
                }
            }
            if exists|j: int|
                0 <= j < rest.len() && l.slab_of(#[trigger] rest[j]) == i && next.index_in_slab(
                    l,
                    rest[j],
                ) as u16 == x {
                let j = choose|j: int|
                    0 <= j < rest.len() && l.slab_of(#[trigger] rest[j]) == i
                        && next.index_in_slab(l, rest[j]) as u16 == x;
                assert(offs[j + 1] == rest[j]);
            }
            if exists|j: int|
                0 <= j < offs.len() && l.slab_of(#[trigger] offs[j]) == i && s.index_in_slab(
                    l,
                    offs[j],
                ) as u16 == x {
                let j = choose|j: int|
                    0 <= j < offs.len() && l.slab_of(#[trigger] offs[j]) == i && s.index_in_slab(
                        l,
                        offs[j],
                    ) as u16 == x;
                if j > 0 {
                    assert(rest[j - 1] == offs[j]);
                }
            }
        }
    }
}

/// Reclaiming makes every slot that was queued for the worker a free slot of its slab, in the order
/// of the queue, and no other; slabs of other workers, their queues and their counts stay as they are, and a slab
/// keeps its owner as long as something is taken from it.
pub proof fn law_clean_effect(l: CachedLayout, s: State, w: int)
    requires
        l.wf(),
        s.ok(l),
        s.accounted(l),
        s.no_idle_slab(),
        0 <= w < l.num_workers,
    ensures
        ({
            let after = s.clean(l, w);
            let queue = s.remote[w];
            &&& after.remote == s.remote.update(w, Seq::empty())
            &&& after.class == s.class
            &&& after.claimed == s.claimed
            &&& after.slab_heads == s.slab_heads
            &&& forall|i: int|
                0 <= i < l.num_slabs ==> #[trigger] after.stack[i] == s.stack[i] + slots_among(
                    l,
                    s.class,
                    queue,
                    i,
                )
            &&& forall|v: int|
                0 <= v < l.num_workers && v != w ==> #[trigger] after.outstanding[v]
                    == s.outstanding[v]
            &&& forall|i: int|
                0 <= i < l.num_slabs && s.assigned[i] != w ==> #[trigger] after.assigned[i]
                    == s.assigned[i] && after.stack[i] == s.stack[i]
            &&& forall|i: int|
                0 <= i < l.num_slabs && s.assigned[i] == w ==> #[trigger] after.assigned[i] == if after.stack[i].len()
                    < l.slab_size as int / class_bytes(s.class[i] as int) {
                    w
                } else {
                    NULL_U32 as int
                }
            &&& forall|i: int, x: u16|
                0 <= i < l.num_slabs ==> (#[trigger] after.stack[i].contains(x)
                    <==> s.stack[i].contains(x) || exists|j: int|
                    0 <= j < queue.len() && (#[trigger] queue[j] - l.slabs_offset)
                        / l.slab_size as int == i && (queue[j] - l.slabs_offset)
                        % l.slab_size as int / class_bytes(s.class[i] as int) == x)
        }),
{
    let emptied = State { remote: s.remote.update(w, Seq::empty()), ..s };
    let queue = s.remote[w];
    let after = s.clean(l, w);
    s.lemma_same_ok(l, emptied);
    assert forall|j: int| 0 <= j < queue.len() implies emptied.is_taken(l, #[trigger] queue[j])
        && emptied.owner(l, queue[j]) == w by {
        assert(s.is_taken(l, s.remote[w][j]));
    }
    crate::laws::lemma_local_free_all(l, emptied, w, queue);
    lemma_reclaim(l, emptied, w, queue);
    assert forall|i: int| 0 <= i < l.num_slabs implies #[trigger] after.stack[i] == s.stack[i]
        + slots_among(l, s.class, queue, i) by {
        lemma_reclaim_order(l, emptied, w, queue, i);
    }
    assert forall|i: int| 0 <= i < l.num_slabs && s.assigned[i] == w implies #[trigger] after.assigned[i]
        == if after.stack[i].len() < l.slab_size as int / class_bytes(s.class[i] as int) {
        w
    } else {
        NULL_U32 as int
    } by {
        assert(s.slab_ok(l, i));
        assert(after.slab_ok(l, i));
        let _ = emptied.assigned[i];
        if after.assigned[i] == NULL_U32 {
            lemma_returned_full(l, emptied, w, queue, i);
        }
    }
    assert forall|i: int, x: u16| 0 <= i < l.num_slabs implies (#[trigger] after.stack[i].contains(x)
        <==> s.stack[i].contains(x) || exists|j: int|
        0 <= j < queue.len() && (#[trigger] queue[j] - l.slabs_offset) / l.slab_size as int == i
            && (queue[j] - l.slabs_offset) % l.slab_size as int / class_bytes(s.class[i] as int)
            == x) by {
        assert(after.stack[i].contains(x) <==> emptied.stack[i].contains(x) || exists|j: int|
            0 <= j < queue.len() && l.slab_of(#[trigger] queue[j]) == i && emptied.index_in_slab(
                l,
                queue[j],
            ) as u16 == x);
        assert forall|j: int| 0 <= j < queue.len() && l.slab_of(#[trigger] queue[j]) == i implies 0
            <= s.index_in_slab(l, queue[j]) < u16::MAX by {
            assert(s.is_taken(l, s.remote[w][j]));
            s.lemma_slot(l, queue[j]);
            assert(s.slab_ok(l, i));
        }
    }
}

/// A slab that its owner gives back while reclaiming has all its slots free.
proof fn lemma_returned_full(l: CachedLayout, s: State, w: int, offs: Seq<int>, i: int)
    requires
        l.wf(),
        s.ok(l),
        s.accounted(l),
        0 <= w < l.num_workers,
        s.remote[w].len() == 0,
        offs.no_duplicates(),
        forall|j: int|
            0 <= j < offs.len() ==> s.is_taken(l, #[trigger] offs[j]) && s.owner(l, offs[j]) == w,
        0 <= i < l.num_slabs,
        s.assigned[i] != NULL_U32,
        s.local_free_all(l, offs).assigned[i] == NULL_U32,
    ensures
        s.local_free_all(l, offs).stack[i].len() == l.slab_size as int / class_bytes(
            s.class[i] as int,
        ),
    decreases offs.len(),
{
    if offs.len() > 0 {
        let off = offs[0];
        let rest = offs.drop_first();
        let next = s.local_free(l, off);
        s.lemma_slot(l, off);
        assert(!s.is_pending(l, off));
        s.lemma_local_free(l, off);
        law_free_effect(l, s, w, off);
        assert forall|j: int| 0 <= j < rest.len() implies next.is_taken(l, #[trigger] rest[j])
            && next.owner(l, rest[j]) == w by {
            assert(rest[j] == offs[j + 1]);
            assert(offs[j + 1] != offs[0]);
            s.lemma_put_keeps(l, off, rest[j]);
        }
        if next.assigned[i] == NULL_U32 {
            lemma_reclaim(l, next, w, rest);
            assert(next.assigned[i] != w);
            assert(s.local_free_all(l, offs).assigned[i] == next.assigned[i]);
        } else {
            lemma_returned_full(l, next, w, rest, i);
        }
    }
}

/// In a new region no slab has an owner, all are in the pool, the lowest first, no worker slot
/// is taken, and nothing is counted or queued.
pub proof fn law_fresh_is_free(l: CachedLayout)
    requires
        l.wf(),
    ensures
        ({
            let s = fresh_state(l);
            &&& s.lists[0].len() == l.num_slabs
            &&& s.assigned.len() == l.num_slabs
            &&& s.claimed.len() == l.num_workers
            &&& s.outstanding.len() == l.num_workers
            &&& forall|i: int| 0 <= i < l.num_slabs ==> #[trigger] s.lists[0][i] == i
            &&& forall|i: int| 0 <= i < l.num_slabs ==> #[trigger] s.assigned[i] == NULL_U32
            &&& forall|w: int| 0 <= w < l.num_workers ==> #[trigger] s.claimed[w] == 0
            &&& forall|w: int| 0 <= w < l.num_workers ==> #[trigger] s.outstanding[w] == 0
            &&& forall|w: int| 0 <= w < l.num_workers ==> (#[trigger] s.remote[w]).len() == 0
            &&& s.slab_heads.len() == l.num_slabs
            &&& forall|i: int| 0 <= i < l.num_slabs ==> #[trigger] s.slab_heads[i] == NULL_U16
        }),
{
}

/// A freed allocation is written to only where it is queued for another worker, and then only in
/// its first eight bytes.
pub proof fn law_link_bytes(l: CachedLayout, s: State, w: int, off: int)
    ensures
        s.link_bytes(l, w, off) == if s.assigned[(off - l.slabs_offset) / l.slab_size as int] == w {
            0int
        } else {
            8int
        },
{
}

/// What others free is queued in front, and nothing else changes.
pub proof fn law_remote_free_effect(s: State, w: int, offs: Seq<int>, v: int)
    requires
        0 <= w < s.remote.len(),
        0 <= v < s.remote.len(),
    ensures
        ({
            let after = s.remote_free(w, offs);
            &&& after.remote.len() == s.remote.len()
            &&& after.remote[w] == offs + s.remote[w]
            &&& v != w ==> after.remote[v] == s.remote[v]
            &&& after == (State { remote: after.remote, ..s })
        }),
{
}

/// What an operation leaves alone: the bytes of the slabs and what follows them, but for the
/// given ones, and the header up to the head of the global free list.
pub proof fn law_frames(l: CachedLayout, a: Seq<u8>, b: Seq<u8>, lo: int, hi: int, i: int)
    requires
        0 <= i < 64 || l.slabs_offset <= i < a.len(),
    ensures
        l.only_tables(a, b) ==> a.len() == b.len() && b[i] == a[i],
        l.only_bytes(a, b, lo, hi) && (i < 64 || i < lo || hi <= i) ==> a.len() == b.len() && b[i]
            == a[i],
        same_outside(a, b, lo, hi) && 0 <= i < a.len() && (i < lo || hi <= i) ==> a.len()
            == b.len() && b[i] == a[i],
        agree(a, b, lo, hi) && lo <= i < hi ==> b[i] == a[i],
{
}

/// Every allocation in use is one that can be queued for its owner.
pub proof fn law_can_be_queued(l: CachedLayout, s: State, off: int)
    requires
        l.wf(),
        s.ok(l),
        s.live(l).contains(off),
    ensures
        l.slot_starts().contains(off),
{
    let slab = l.slab_of(off);
    let class = s.class[slab] as int;
    s.lemma_slot(l, off);
    assert(s.slab_ok(l, slab));
    crate::slots::lemma_slots(l.slab_size as int, 0);
    let index = s.index_in_slab(l, off);
    let ss = l.slab_size as int;
    let bytes = class_bytes(class);
    assert(bytes == 256 * (bytes / 256));
    assert(ss == 256 * (ss / 256));
    assert(slab * ss == 256 * (slab * (ss / 256))) by {
        lemma_mul_is_associative(256, slab, ss / 256);
        lemma_mul_is_commutative(256, slab);
        lemma_mul_is_associative(slab, 256, ss / 256);
    }
    assert(index * bytes == 256 * (index * (bytes / 256))) by {
        lemma_mul_is_associative(256, index, bytes / 256);
        lemma_mul_is_commutative(256, index);
        lemma_mul_is_associative(index, 256, bytes / 256);
    }
    let k = slab * (ss / 256) + index * (bytes / 256);
    assert(off - l.slabs_offset == 256 * k);
}

/// The first slab of the pool goes to the worker and class that asked for it, with all its slots
/// free and the lowest to be handed out first; no other slab changes.
pub proof fn law_take_slab_effect(l: CachedLayout, s: State, w: int, class: int)
    requires
        l.wf(),
        s.ok(l),
        0 <= w < l.num_workers,
        0 <= class < 5,
        s.lists[0].len() > 0,
    ensures
        ({
            let after = s.take_slab(l, w, class);
            let slab = s.lists[0][0] as int;
            let slots = l.slab_size as int / class_bytes(class);
            &&& 0 <= slab < l.num_slabs
            &&& s.assigned[slab] == NULL_U32
            &&& after.assigned == s.assigned.update(slab, w as u32)
            &&& after.class == s.class.update(slab, class as u64)
            &&& after.cap == s.cap.update(slab, slots as u16)
            &&& after.stack[slab].len() == slots
            &&& forall|j: int| 0 <= j < slots ==> #[trigger] after.stack[slab][j] == slots - 1 - j
            &&& forall|i: int|
                0 <= i < l.num_slabs && i != slab ==> #[trigger] after.stack[i] == s.stack[i]
            &&& after.remote == s.remote
            &&& after.claimed == s.claimed
            &&& after.outstanding == s.outstanding
            &&& after.slab_heads == s.slab_heads
            &&& after.lists[0] == s.lists[0].drop_first()
            &&& after.lists[1 + 10 * w + 2 * class] == seq![slab as u32] + s.lists[1 + 10 * w + 2
                * class]
            &&& after.generation as int == (s.generation + 1) % 0x1_0000_0000
        }),
{
    crate::slots::lemma_serves(l.slab_size as int, class);
    crate::slots::lemma_slots(l.slab_size as int, class);
    s.lemma_take_slab(l, w, class);
    assert(s.places()[s.lists[0][0] as int] == 0);
}

/// Where the heads of a worker's lists, the slabs and their slots lie.
pub proof fn law_list_heads(l: CachedLayout, w: int, class: int, slab: int, index: int)
    requires
        l.wf(),
        0 <= w < l.num_workers,
        0 <= class < 5,
        0 <= slab < l.num_slabs,
    ensures
        l.head_at(w, 2 * class) == 152 + 64 * w + 8 * class,
        l.head_at(w, 2 * class + 1) == 156 + 64 * w + 8 * class,
        l.slot(slab, class, index) == l.slabs_offset + slab * l.slab_size + index * class_bytes(
            class,
        ),
        l.slots(class) == l.slab_size as int / class_bytes(class),
        l.end() == l.slabs_offset + l.num_slabs * l.slab_size,
{
}

} // verus!
