//! Rounds of allocations that keep an allocator busy.
use crate::assigned::laws::{law_allocate, law_free};
use crate::assigned::region::{AssignedState, RawLayout, GLOBAL_FREE_STACK};
use crate::assigned::worker_assigned::WorkerAssignedAllocator;
use crate::index::NULL_U32;
use crate::region::serves;
use crate::size_classes::{class_bytes, class_of, MAX_SIZE, SIZE_CLASSES};
use vstd::prelude::*;

verus! {

/// What a round has served: how many allocations, how many bytes were asked for in them, and
/// whether some request could not be served.
#[derive(Clone, Copy, Debug, PartialEq, Eq, Structural)]
pub struct Served {
    pub num_allocated: u64,
    pub bytes_allocated: u64,
    pub full: bool,
}

/// The sum of some sizes.
pub open spec fn total(sizes: Seq<u32>) -> int
    decreases sizes.len(),
{
    if sizes.len() == 0 {
        0
    } else {
        total(sizes.drop_last()) + sizes.last()
    }
}

/// The state after a worker has asked for allocations of the given sizes, the offsets that it
/// got, and the sizes that were served.
pub open spec fn serve(l: RawLayout, s: AssignedState, w: int, sizes: Seq<u32>) -> (
    AssignedState,
    Seq<int>,
    Seq<u32>,
)
    decreases sizes.len(),
{
    if sizes.len() == 0 {
        (s, Seq::empty(), Seq::empty())
    } else {
        let (before, offs, served) = serve(l, s, w, sizes.drop_last());
        let size = sizes.last();
        let class = class_of(size as int);
        if size > MAX_SIZE || !before.can_allocate(w, class) {
            (before, offs, served)
        } else {
            (
                before.allocate(l, w, class),
                offs.push(before.next_allocation(l, w, class)),
                served.push(size),
            )
        }
    }
}

/// The state after a worker has freed allocations, one after another.
pub open spec fn free_each(l: RawLayout, s: AssignedState, w: int, offs: Seq<int>) -> AssignedState
    decreases offs.len(),
{
    if offs.len() == 0 {
        s
    } else {
        free_each(l, s, w, offs.drop_last()).free(l, w, offs.last())
    }
}

/// The offsets that pointers stand for.
pub open spec fn offsets(header: usize, ptrs: Seq<usize>) -> Seq<int> {
    ptrs.map_values(|p: usize| p - header)
}

/// A byte is one of the first four of some allocation.
pub open spec fn in_link(offs: Seq<int>, i: int) -> bool {
    exists|j: int| 0 <= j < offs.len() && #[trigger] offs[j] <= i < offs[j] + 4
}

/// Serving a request adds at most its size.
proof fn lemma_total(sizes: Seq<u32>, size: u32)
    ensures
        total(sizes.push(size)) == total(sizes) + size,
{
    assert(sizes.push(size).drop_last() =~= sizes);
}

proof fn lemma_total_bound(sizes: Seq<u32>)
    ensures
        0 <= total(sizes) <= sizes.len() * u32::MAX,
    decreases sizes.len(),
{
    if sizes.len() > 0 {
        lemma_total_bound(sizes.drop_last());
    }
}

/// What a worker gets in a round is new and becomes in use, and nothing else changes hands.
pub proof fn law_serve(l: RawLayout, s: AssignedState, w: int, sizes: Seq<u32>)
    requires
        l.wf(),
        s.ok(l),
        0 <= w < l.num_workers,
        forall|j: int|
            0 <= j < sizes.len() && #[trigger] sizes[j] <= MAX_SIZE ==> serves(
                l.slab_size as int,
                class_of(sizes[j] as int),
            ),
    ensures
        ({
            let (after, offs, served) = serve(l, s, w, sizes);
            &&& after.ok(l)
            &&& offs.no_duplicates()
            &&& offs.len() == served.len() <= sizes.len()
            &&& forall|x: int| #[trigger] offs.contains(x) ==> !s.live(l).contains(x)
            &&& after.live(l) == s.live(l).union(offs.to_set())
        }),
    decreases sizes.len(),
{
    let (after, offs, served) = serve(l, s, w, sizes);
    if sizes.len() == 0 {
        assert(after.live(l) =~= s.live(l).union(offs.to_set()));
    } else {
        let fewer = sizes.drop_last();
        assert forall|j: int| 0 <= j < fewer.len() && #[trigger] fewer[j] <= MAX_SIZE implies serves(
            l.slab_size as int,
            class_of(fewer[j] as int),
        ) by {
            assert(fewer[j] == sizes[j]);
        }
        law_serve(l, s, w, fewer);
        let (before, offs0, served0) = serve(l, s, w, fewer);
        let size = sizes.last();
        let class = class_of(size as int);
        if size <= MAX_SIZE && before.can_allocate(w, class) {
            assert(sizes[sizes.len() - 1] == size);
            law_allocate(l, before, w, size as int);
            let off = before.next_allocation(l, w, class);
            assert(!before.live(l).contains(off));
            assert forall|x: int| offs.contains(x) <==> offs0.contains(x) || x == off by {
                if offs.contains(x) {
                    let j = offs.index_of(x);
                    if j < offs0.len() {
                        assert(offs0[j] == x);
                    }
                }
                if offs0.contains(x) {
                    let j = offs0.index_of(x);
                    assert(offs[j] == x);
                }
                if x == off {
                    assert(offs[offs0.len() as int] == x);
                }
            }
            assert(offs.no_duplicates()) by {
                assert forall|i: int, j: int|
                    0 <= i < offs.len() && 0 <= j < offs.len() && i != j implies offs[i]
                    != offs[j] by {
                    if i < offs0.len() {
                        assert(offs0.contains(offs0[i]));
                    }
                    if j < offs0.len() {
                        assert(offs0.contains(offs0[j]));
                    }
                }
            }
            assert(after.live(l) =~= s.live(l).union(offs.to_set()));
        }
    }
}

impl WorkerAssignedAllocator {
    /// Asks for allocations of the given sizes, and adds those that are served to
    /// `allocations`.
    pub fn allocate_each(
        &self,
        mem: &mut [u8],
        sizes: &[u32],
        allocations: &mut Vec<usize>,
    ) -> (served: Served)
        requires
            self.valid(old(mem)@),
            sizes@.len() <= u32::MAX,
            forall|j: int|
                0 <= j < sizes@.len() && #[trigger] sizes@[j] <= MAX_SIZE ==> serves(
                    self.layout(old(mem)@).slab_size as int,
                    class_of(sizes@[j] as int),
                ),
            offsets(self.allocator.header, old(allocations)@).no_duplicates(),
            forall|j: int|
                0 <= j < old(allocations)@.len() ==> self.allocator.live(old(mem)@).contains(
                    #[trigger] offsets(self.allocator.header, old(allocations)@)[j],
                ),
        ensures
            self.valid(final(mem)@),
            self.layout(final(mem)@) == self.layout(old(mem)@),
            ({
                let l = self.layout(old(mem)@);
                let (s, offs, sizes_served) = serve(
                    l,
                    self.state(old(mem)@),
                    self.worker_index as int,
                    sizes@,
                );
                &&& self.state(final(mem)@) == s
                &&& offsets(self.allocator.header, final(allocations)@) == offsets(
                    self.allocator.header,
                    old(allocations)@,
                ) + offs
                &&& served.num_allocated == sizes_served.len()
                &&& served.bytes_allocated == total(sizes_served)
                &&& served.full <==> sizes_served.len() < sizes@.len()
            }),
            offsets(self.allocator.header, final(allocations)@).no_duplicates(),
            forall|j: int|
                0 <= j < final(allocations)@.len() ==> self.allocator.live(final(mem)@).contains(
                    #[trigger] offsets(self.allocator.header, final(allocations)@)[j],
                ),
            self.layout(old(mem)@).only_tables(old(mem)@, final(mem)@),
    {
        let ghost m0 = mem@;
        let ghost l = self.layout(m0);
        let ghost s0 = self.state(m0);
        let ghost w = self.worker_index as int;
        let ghost header = self.allocator.header;
        let ghost first = offsets(header, allocations@);
        let mut num_allocated: u64 = 0;
        let mut bytes_allocated: u64 = 0;
        let mut full = false;
        let mut i: usize = 0;
        assert(sizes@.take(0) =~= Seq::empty());
        assert(first + Seq::<int>::empty() =~= first);
        while i < sizes.len()
            invariant
                i <= sizes@.len() <= u32::MAX,
                forall|j: int|
                    0 <= j < sizes@.len() && #[trigger] sizes@[j] <= MAX_SIZE ==> serves(
                        l.slab_size as int,
                        class_of(sizes@[j] as int),
                    ),
                self.valid(mem@),
                self.layout(mem@) == l,
                w == self.worker_index,
                header == self.allocator.header,
                l.only_tables(m0, mem@),
                self.state(mem@) == serve(l, s0, w, sizes@.take(i as int)).0,
                offsets(header, allocations@) == first + serve(l, s0, w, sizes@.take(i as int)).1,
                num_allocated == serve(l, s0, w, sizes@.take(i as int)).2.len(),
                num_allocated <= i,
                bytes_allocated == total(serve(l, s0, w, sizes@.take(i as int)).2),
                full <==> num_allocated < i,
                offsets(header, allocations@).no_duplicates(),
                forall|j: int|
                    0 <= j < allocations@.len() ==> self.allocator.live(mem@).contains(
                        #[trigger] offsets(header, allocations@)[j],
                    ),
            decreases sizes@.len() - i,
        {
            let ghost m = mem@;
            let ghost s = self.state(m);
            let ghost before = offsets(header, allocations@);
            let size = sizes[i];
            let ghost class = class_of(size as int);
            let ghost served = serve(l, s0, w, sizes@.take(i as int)).2;
            proof {
                assert(sizes@.take(i + 1).drop_last() =~= sizes@.take(i as int));
                lemma_total_bound(served);
                lemma_total(served, size);
            }
            match self.allocate(mem, size) {
                Some(ptr) => {
                    num_allocated = num_allocated + 1;
                    bytes_allocated = bytes_allocated + size as u64;
                    proof {
                        law_allocate(l, s, w, size as int);
                    }
                    allocations.push(ptr);
                    proof {
                        let off = s.next_allocation(l, w, class);
                        let now = offsets(header, allocations@);
                        assert(now =~= before.push(off));
                        assert(before.push(off) =~= first + serve(
                            l,
                            s0,
                            w,
                            sizes@.take(i as int),
                        ).1.push(off));
                        assert forall|j: int|
                            0 <= j < allocations@.len() implies self.allocator.live(
                            mem@,
                        ).contains(#[trigger] now[j]) by {
                            if j < before.len() {
                                assert(now[j] == before[j]);
                            }
                        }
                        assert(now.no_duplicates()) by {
                            assert forall|p: int, q: int|
                                0 <= p < now.len() && 0 <= q < now.len() && p
                                    != q implies now[p] != now[q] by {
                                if p < before.len() {
                                    assert(now[p] == before[p]);
                                }
                                if q < before.len() {
                                    assert(now[q] == before[q]);
                                }
                            }
                        }
                    }
                },
                None => {
                    full = true;
                },
            }
            i = i + 1;
        }
        assert(sizes@.take(i as int) =~= sizes@);
        Served { num_allocated, bytes_allocated, full }
    }

    /// Frees all of `allocations`, in order, and empties it.
    pub fn free_all(&self, mem: &mut [u8], allocations: &mut Vec<usize>)
        requires
            self.allocator.valid(old(mem)@),
            offsets(self.allocator.header, old(allocations)@).no_duplicates(),
            forall|j: int|
                0 <= j < old(allocations)@.len() ==> self.allocator.live(old(mem)@).contains(
                    #[trigger] offsets(self.allocator.header, old(allocations)@)[j],
                ),
        ensures
            self.allocator.valid(final(mem)@),
            self.layout(final(mem)@) == self.layout(old(mem)@),
            self.state(final(mem)@) == free_each(
                self.layout(old(mem)@),
                self.state(old(mem)@),
                self.worker_index as int,
                offsets(self.allocator.header, old(allocations)@),
            ),
            final(allocations)@.len() == 0,
            self.allocator.live(final(mem)@) == self.allocator.live(old(mem)@).difference(
                offsets(self.allocator.header, old(allocations)@).to_set(),
            ),
            final(mem)@.len() == old(mem)@.len(),
            forall|i: int|
                (0 <= i < GLOBAL_FREE_STACK || self.layout(old(mem)@).slab_offset <= i
                    < old(mem)@.len()) && !in_link(
                    offsets(self.allocator.header, old(allocations)@),
                    i,
                ) ==> #[trigger] final(mem)@[i] == old(mem)@[i],
    {
        let ghost m0 = mem@;
        let ghost l = self.layout(m0);
        let ghost s0 = self.state(m0);
        let ghost w = self.worker_index as int;
        let ghost header = self.allocator.header;
        let ghost offs = offsets(header, allocations@);
        let mut i: usize = 0;
        proof {
            assert(offs.take(0) =~= Seq::empty());
            assert(s0.live(l).difference(offs.take(0).to_set()) =~= s0.live(l));
        }
        while i < allocations.len()
            invariant
                i <= allocations@.len(),
                self.allocator.valid(mem@),
                self.layout(mem@) == l,
                w == self.worker_index,
                header == self.allocator.header,
                offs == offsets(header, allocations@),
                offs.no_duplicates(),
                self.state(mem@) == free_each(l, s0, w, offs.take(i as int)),
                self.allocator.live(mem@) == s0.live(l).difference(
                    offs.take(i as int).to_set(),
                ),
                forall|j: int|
                    0 <= j < allocations@.len() ==> s0.live(l).contains(#[trigger] offs[j]),
                mem@.len() == m0.len(),
                forall|j: int|
                    (0 <= j < GLOBAL_FREE_STACK || l.slab_offset <= j < m0.len()) && !in_link(
                        offs,
                        j,
                    ) ==> #[trigger] mem@[j] == m0[j],
            decreases allocations@.len() - i,
        {
            let ghost s = self.state(mem@);
            let ghost off = offs[i as int];
            proof {
                assert(s0.live(l).contains(off));
                if offs.take(i as int).contains(off) {
                    let j = offs.take(i as int).index_of(off);
                    assert(offs[j] == off);
                }
                assert(s.live(l).contains(off));
                assert(offs.take(i + 1).drop_last() =~= offs.take(i as int));
                law_free(l, s, w, off);
            }
            let ptr = allocations[i];
            self.free(mem, ptr);
            proof {
                assert forall|j: int|
                    (0 <= j < GLOBAL_FREE_STACK || l.slab_offset <= j < m0.len()) && !in_link(
                        offs,
                        j,
                    ) implies #[trigger] mem@[j] == m0[j] by {
                    assert(!(offs[i as int] <= j < offs[i as int] + 4));
                }
                assert(s0.live(l).difference(offs.take(i as int).to_set()).remove(off)
                    =~= s0.live(l).difference(offs.take(i + 1).to_set())) by {
                    assert forall|y: int|
                        offs.take(i + 1).contains(y) <==> offs.take(i as int).contains(y) || y
                            == off by {
                        if offs.take(i + 1).contains(y) && y != off {
                            let j = offs.take(i + 1).index_of(y);
                            assert(offs.take(i as int)[j] == y);
                        }
                        if offs.take(i as int).contains(y) {
                            let j = offs.take(i as int).index_of(y);
                            assert(offs.take(i + 1)[j] == y);
                        }
                        if y == off {
                            assert(offs.take(i + 1)[i as int] == y);
                        }
                    }
                }
            }
            i = i + 1;
        }
        assert(offs.take(i as int) =~= offs);
        allocations.clear();
    }

    /// A round: asks for allocations of the given sizes, and frees those that are served.
    pub fn round(&self, mem: &mut [u8], sizes: &[u32]) -> (served: Served)
        requires
            self.valid(old(mem)@),
            sizes@.len() <= u32::MAX,
            forall|j: int|
                0 <= j < sizes@.len() && #[trigger] sizes@[j] <= MAX_SIZE ==> serves(
                    self.layout(old(mem)@).slab_size as int,
                    class_of(sizes@[j] as int),
                ),
        ensures
            self.valid(final(mem)@),
            self.layout(final(mem)@) == self.layout(old(mem)@),
            ({
                let l = self.layout(old(mem)@);
                let w = self.worker_index as int;
                let (s, offs, sizes_served) = serve(l, self.state(old(mem)@), w, sizes@);
                &&& self.state(final(mem)@) == free_each(l, s, w, offs)
                &&& served.num_allocated == sizes_served.len()
                &&& served.bytes_allocated == total(sizes_served)
                &&& served.full <==> sizes_served.len() < sizes@.len()
                &&& forall|i: int|
                    (0 <= i < GLOBAL_FREE_STACK || l.slab_offset <= i < old(mem)@.len())
                        && !in_link(offs, i) ==> #[trigger] final(mem)@[i] == old(mem)@[i]
            }),
            self.allocator.live(final(mem)@) == self.allocator.live(old(mem)@),
            final(mem)@.len() == old(mem)@.len(),
    {
        let ghost m0 = mem@;
        let ghost l = self.layout(m0);
        let ghost s0 = self.state(m0);
        let ghost header = self.allocator.header;
        let mut allocations: Vec<usize> = Vec::new();
        proof {
            assert(offsets(header, allocations@) =~= Seq::empty());
            law_serve(l, s0, self.worker_index as int, sizes@);
        }
        let served = self.allocate_each(mem, sizes, &mut allocations);
        let ghost offs = offsets(header, allocations@);
        assert(offs =~= serve(l, s0, self.worker_index as int, sizes@).1);
        self.free_all(mem, &mut allocations);
        assert(s0.live(l).union(offs.to_set()).difference(offs.to_set()) =~= s0.live(l)) by {
            assert forall|x: int| offs.to_set().contains(x) implies !s0.live(l).contains(x) by {
                assert(offs.contains(x));
            }
        }
        served
    }

    /// A round in which another worker frees: drains what was freed, asks for allocations of
    /// the given sizes, which are added to `allocations`, and only when some request could not
    /// be served, because the space ran out, lets the other worker free all of them.
    pub fn round_with_remote_frees(
        &self,
        mem: &mut [u8],
        free_worker: u32,
        sizes: &[u32],
        allocations: &mut Vec<usize>,
    ) -> (served: Served)
        requires
            self.valid(old(mem)@),
            sizes@.len() <= u32::MAX,
            forall|j: int|
                0 <= j < sizes@.len() && #[trigger] sizes@[j] <= MAX_SIZE ==> serves(
                    self.layout(old(mem)@).slab_size as int,
                    class_of(sizes@[j] as int),
                ),
            offsets(self.allocator.header, old(allocations)@).no_duplicates(),
            forall|j: int|
                0 <= j < old(allocations)@.len() ==> self.allocator.live(old(mem)@).contains(
                    #[trigger] offsets(self.allocator.header, old(allocations)@)[j],
                ),
        ensures
            self.valid(final(mem)@),
            self.layout(final(mem)@) == self.layout(old(mem)@),
            ({
                let l = self.layout(old(mem)@);
                let w = self.worker_index as int;
                let drained = self.state(old(mem)@).drain(l, w, 5);
                let (s, offs, sizes_served) = serve(l, drained, w, sizes@);
                let before = offsets(self.allocator.header, old(allocations)@);
                &&& served.num_allocated == sizes_served.len()
                &&& served.bytes_allocated == total(sizes_served)
                &&& served.full <==> sizes_served.len() < sizes@.len()
                &&& if served.full {
                    &&& self.state(final(mem)@) == free_each(l, s, free_worker as int, before + offs)
                    &&& final(allocations)@.len() == 0
                    &&& self.allocator.live(final(mem)@) == self.allocator.live(
                        old(mem)@,
                    ).difference(before.to_set())
                    &&& forall|i: int|
                        (0 <= i < GLOBAL_FREE_STACK || l.slab_offset <= i < old(mem)@.len())
                            && !in_link(before + offs, i) ==> #[trigger] final(mem)@[i] == old(
                            mem,
                        )@[i]
                } else {
                    &&& self.state(final(mem)@) == s
                    &&& offsets(self.allocator.header, final(allocations)@) == before + offs
                    &&& self.allocator.live(final(mem)@) == self.allocator.live(
                        old(mem)@,
                    ).union(offs.to_set())
                    &&& l.only_tables(old(mem)@, final(mem)@)
                }
            }),
            offsets(self.allocator.header, final(allocations)@).no_duplicates(),
            forall|j: int|
                0 <= j < final(allocations)@.len() ==> self.allocator.live(final(mem)@).contains(
                    #[trigger] offsets(self.allocator.header, final(allocations)@)[j],
                ),
            final(mem)@.len() == old(mem)@.len(),
    {
        let ghost m0 = mem@;
        let ghost l = self.layout(m0);
        let ghost w = self.worker_index as int;
        let ghost header = self.allocator.header;
        let ghost before = offsets(header, allocations@);
        self.drain_remote_frees(mem);
        let ghost drained = self.state(mem@);
        proof {
            law_serve(l, drained, w, sizes@);
        }
        let served = self.allocate_each(mem, sizes, allocations);
        let ghost offs = serve(l, drained, w, sizes@).1;
        if served.full {
            let ghost all = offsets(header, allocations@);
            let remote = WorkerAssignedAllocator {
                allocator: self.allocator,
                worker_index: free_worker,
            };
            remote.free_all(mem, allocations);
            proof {
                let live = drained.live(l);
                assert(offsets(header, allocations@) =~= Seq::empty());
                assert forall|x: int|
                    live.union(offs.to_set()).difference(all.to_set()).contains(x)
                    <==> live.difference(before.to_set()).contains(x) by {
                    assert(all.contains(x) <==> before.contains(x) || offs.contains(x)) by {
                        if all.contains(x) {
                            let i = all.index_of(x);
                            if i < before.len() {
                                assert(before[i] == x);
                            } else {
                                assert(offs[i - before.len()] == x);
                            }
                        }
                        if before.contains(x) {
                            assert(all[before.index_of(x)] == x);
                        }
                        if offs.contains(x) {
                            assert(all[before.len() + offs.index_of(x)] == x);
                        }
                    }
                }
                assert(live.union(offs.to_set()).difference(all.to_set())
                    =~= live.difference(before.to_set()));
            }
        }
        served
    }

    /// Starts a worker afresh: gives all its slabs back and, if asked to, allocates once from
    /// each class so that the worker holds on to a slab of each.
    pub fn start_afresh(&self, mem: &mut [u8], hold_slabs: bool)
        requires
            self.valid(old(mem)@),
            hold_slabs ==> forall|class: int|
                0 <= class < 5 ==> #[trigger] serves(
                    self.layout(old(mem)@).slab_size as int,
                    class,
                ),
        ensures
            self.valid(final(mem)@),
            self.layout(final(mem)@) == self.layout(old(mem)@),
            ({
                let l = self.layout(old(mem)@);
                let w = self.worker_index as int;
                let cleared = self.state(old(mem)@).clear_worker(w, 5);
                self.state(final(mem)@) == if hold_slabs {
                    serve(l, cleared, w, seq![256u32, 512u32, 1024u32, 2048u32, 4096u32]).0
                } else {
                    cleared
                }
            }),
            self.layout(old(mem)@).only_tables(old(mem)@, final(mem)@),
    {
        self.allocator.clear_worker(mem, self.worker_index);
        if hold_slabs {
            let mut held: Vec<usize> = Vec::new();
            let sizes: [u32; 5] = SIZE_CLASSES;
            proof {
                assert(offsets(self.allocator.header, held@) =~= Seq::empty());
                assert(sizes@ =~= seq![256u32, 512u32, 1024u32, 2048u32, 4096u32]);
            }
            let _ = self.allocate_each(mem, &sizes, &mut held);
        }
    }
}

/// The sum of sizes, taken apart anywhere.
pub proof fn law_total(a: Seq<u32>, b: Seq<u32>, size: u32)
    ensures
        total(a + b) == total(a) + total(b),
        total(seq![size]) == size,
        total(Seq::<u32>::empty()) == 0,
    decreases b.len(),
{
    lemma_total(Seq::empty(), size);
    assert(Seq::<u32>::empty().push(size) =~= seq![size]);
    if b.len() == 0 {
        assert(a + b =~= a);
    } else {
        law_total(a, b.drop_last(), size);
        assert((a + b).drop_last() =~= a + b.drop_last());
    }
}

/// One request after others is served exactly when it asks for no more than 4096 bytes and some
/// slab has no owner by then, or the worker owns a slab of the class with a free slot.
pub proof fn law_serve_next(l: RawLayout, s: AssignedState, w: int, sizes: Seq<u32>, size: u32)
    requires
        l.wf(),
        s.ok(l),
        0 <= w < l.num_workers,
        forall|j: int|
            0 <= j < sizes.len() && #[trigger] sizes[j] <= MAX_SIZE ==> serves(
                l.slab_size as int,
                class_of(sizes[j] as int),
            ),
    ensures
        ({
            let (before, offs, served) = serve(l, s, w, sizes);
            let (after, more, now) = serve(l, s, w, sizes.push(size));
            let left = (exists|i: int|
                0 <= i < l.num_slabs && #[trigger] before.assigned[i] == NULL_U32) || (exists|i: int|
                0 <= i < l.num_slabs && before.assigned[i] == w && before.class[i] == class_of(
                    size as int,
                ) && (#[trigger] before.stack[i]).len() > 0);
            if size <= 4096 && left {
                &&& now == served.push(size)
                &&& more.len() == offs.len() + 1
                &&& more.drop_last() == offs
            } else {
                &&& now == served
                &&& more == offs
                &&& after == before
            }
        }),
{
    law_serve(l, s, w, sizes);
    let (before, offs, served) = serve(l, s, w, sizes);
    let (after, more, now) = serve(l, s, w, sizes.push(size));
    assert(sizes.push(size).drop_last() =~= sizes);
    if size <= 4096 {
        crate::assigned::effects::law_served_while_memory_is_left(l, before, w, size as int);
    }
    if more.len() > offs.len() {
        assert(more.drop_last() =~= offs);
    }
}

/// With as many slabs in the pool as there are requests, none of them for more than 4096 bytes,
/// all are served.
pub proof fn law_serve_all(l: RawLayout, s: AssignedState, w: int, sizes: Seq<u32>)
    requires
        l.wf(),
        s.ok(l),
        0 <= w < l.num_workers,
        forall|j: int|
            0 <= j < sizes.len() ==> #[trigger] sizes[j] <= 4096 && serves(
                l.slab_size as int,
                class_of(sizes[j] as int),
            ),
        sizes.len() <= s.lists[0].len(),
    ensures
        serve(l, s, w, sizes).2 == sizes,
        serve(l, s, w, sizes).1.len() == sizes.len(),
        serve(l, s, w, sizes).0.lists[0].len() >= s.lists[0].len() - sizes.len(),
    decreases sizes.len(),
{
    if sizes.len() == 0 {
        assert(serve(l, s, w, sizes).2 =~= sizes);
    } else {
        let fewer = sizes.drop_last();
        let size = sizes.last();
        assert(sizes[sizes.len() - 1] == size);
        assert forall|j: int| 0 <= j < fewer.len() implies #[trigger] fewer[j] <= 4096 && serves(
            l.slab_size as int,
            class_of(fewer[j] as int),
        ) by {
            assert(fewer[j] == sizes[j]);
        }
        law_serve_all(l, s, w, fewer);
        law_serve(l, s, w, fewer);
        let before = serve(l, s, w, fewer).0;
        let class = class_of(size as int);
        assert(before.can_allocate(w, class));
        crate::assigned::effects::law_allocate_effect(l, before, w, class);
        assert(fewer.push(size) =~= sizes);
    }
}

/// Freeing several allocations ends their use and no other. Those in slabs of the worker are free
/// slots of their slabs afterwards, and the others are queued on their slabs.
pub proof fn law_free_each(l: RawLayout, s: AssignedState, w: int, offs: Seq<int>)
    requires
        l.wf(),
        s.ok(l),
        offs.no_duplicates(),
        forall|j: int| 0 <= j < offs.len() ==> s.live(l).contains(#[trigger] offs[j]),
    ensures
        ({
            let after = free_each(l, s, w, offs);
            &&& after.ok(l)
            &&& after.live(l) == s.live(l).difference(offs.to_set())
            &&& after.class == s.class
            &&& forall|i: int|
                0 <= i < l.num_slabs ==> #[trigger] after.assigned[i] == s.assigned[i]
                    || s.assigned[i] == w && after.assigned[i] == NULL_U32
            &&& forall|i: int, x: u16|
                0 <= i < l.num_slabs && s.stack[i].contains(x) ==> #[trigger] after.stack[i].contains(
                    x,
                )
            &&& forall|i: int, x: int|
                0 <= i < l.num_slabs && s.remote[i].contains(x) ==> #[trigger] after.remote[i].contains(
                    x,
                )
            &&& forall|j: int|
                0 <= j < offs.len() ==> {
                    let slab = (#[trigger] offs[j] - l.slab_offset) / l.slab_size as int;
                    let index = (offs[j] - l.slab_offset) % l.slab_size as int / class_bytes(
                        s.class[slab] as int,
                    );
                    if s.assigned[slab] == w {
                        after.stack[slab].contains(index as u16)
                    } else {
                        after.remote[slab].contains(index)
                    }
                }
        }),
    decreases offs.len(),
{
    let after = free_each(l, s, w, offs);
    if offs.len() == 0 {
        assert(s.live(l).difference(offs.to_set()) =~= s.live(l));
    } else {
        let fewer = offs.drop_last();
        let off = offs.last();
        let n = offs.len() - 1;
        let mid = free_each(l, s, w, fewer);
        assert forall|j: int| 0 <= j < fewer.len() implies s.live(l).contains(
            #[trigger] fewer[j],
        ) by {
            assert(fewer[j] == offs[j]);
        }
        law_free_each(l, s, w, fewer);
        assert(offs[n] == off);
        assert(s.live(l).contains(off));
        if fewer.contains(off) {
            let j = fewer.index_of(off);
            assert(offs[j] == offs[n]);
        }
        assert(mid.live(l).contains(off));
        law_free(l, mid, w, off);
        crate::assigned::effects::law_free_effect(l, mid, w, off);
        let slab = (off - l.slab_offset) / l.slab_size as int;
        let index = (off - l.slab_offset) % l.slab_size as int / class_bytes(
            s.class[slab] as int,
        );
        l.lemma_ok(mid);
        assert(mid.assigned[slab] == s.assigned[slab]);
        let pushed = mid.stack[slab].push(index as u16);
        let queued = seq![index] + mid.remote[slab];
        assert forall|x: u16| mid.stack[slab].contains(x) implies #[trigger] pushed.contains(x) by {
            assert(pushed[mid.stack[slab].index_of(x)] == x);
        }
        assert forall|x: int| mid.remote[slab].contains(x) implies #[trigger] queued.contains(x) by {
            assert(queued[mid.remote[slab].index_of(x) + 1] == x);
        }
        assert(pushed[pushed.len() - 1] == index as u16);
        assert(queued[0] == index);
        assert forall|i: int| 0 <= i < l.num_slabs implies #[trigger] after.assigned[i]
            == s.assigned[i] || s.assigned[i] == w && after.assigned[i] == NULL_U32 by {
            let _ = mid.assigned[i];
        }
        assert forall|i: int, x: u16|
            0 <= i < l.num_slabs && mid.stack[i].contains(x) implies #[trigger] after.stack[i].contains(
            x,
        ) by {}
        assert forall|i: int, x: int|
            0 <= i < l.num_slabs && mid.remote[i].contains(x) implies #[trigger] after.remote[i].contains(
            x,
        ) by {}
        assert forall|i: int, x: u16|
            0 <= i < l.num_slabs && s.stack[i].contains(x) implies #[trigger] after.stack[i].contains(
            x,
        ) by {
            assert(mid.stack[i].contains(x));
        }
        assert forall|i: int, x: int|
            0 <= i < l.num_slabs && s.remote[i].contains(x) implies #[trigger] after.remote[i].contains(
            x,
        ) by {
            assert(mid.remote[i].contains(x));
        }
        assert forall|j: int| 0 <= j < offs.len() implies {
            let slab = (#[trigger] offs[j] - l.slab_offset) / l.slab_size as int;
            let index = (offs[j] - l.slab_offset) % l.slab_size as int / class_bytes(
                s.class[slab] as int,
            );
            if s.assigned[slab] == w {
                after.stack[slab].contains(index as u16)
            } else {
                after.remote[slab].contains(index)
            }
        } by {
            if j < n {
                assert(fewer[j] == offs[j]);
                let slab = (fewer[j] - l.slab_offset) / l.slab_size as int;
                let index = (fewer[j] - l.slab_offset) % l.slab_size as int / class_bytes(
                    s.class[slab] as int,
                );
                crate::assigned::effects::law_free_effect(l, s, w, fewer[j]);
                if s.assigned[slab] == w {
                    assert(mid.stack[slab].contains(index as u16));
                } else {
                    assert(mid.remote[slab].contains(index));
                }
            }
        }
        assert(mid.live(l).remove(off) =~= s.live(l).difference(offs.to_set())) by {
            assert forall|y: int| offs.contains(y) <==> fewer.contains(y) || y == off by {
                if offs.contains(y) && y != off {
                    let j = offs.index_of(y);
                    assert(fewer[j] == y);
                }
                if fewer.contains(y) {
                    assert(offs[fewer.index_of(y)] == y);
                }
                if y == off {
                    assert(offs[n] == y);
                }
            }
        }
    }
}

/// The offset of a pointer is its distance from the start, and links are the first four bytes of
/// allocations.
pub proof fn law_offsets(header: usize, ptrs: Seq<usize>, j: int, i: int)
    requires
        0 <= j < ptrs.len(),
    ensures
        offsets(header, ptrs).len() == ptrs.len(),
        offsets(header, ptrs)[j] == ptrs[j] - header,
        in_link(offsets(header, ptrs), i) ==> exists|k: int|
            0 <= k < ptrs.len() && #[trigger] ptrs[k] - header <= i < ptrs[k] - header + 4,
{
    let offs = offsets(header, ptrs);
    if in_link(offs, i) {
        let k = choose|k: int| 0 <= k < offs.len() && #[trigger] offs[k] <= i < offs[k] + 4;
        assert(offs[k] == ptrs[k] - header);
    }
}

} // verus!
