//! Frees that are published together.
use crate::allocator::{AllocationIndexes, Allocator, AllocatorBase, FreeOnlyAllocator};
use crate::memory::{load_u32, load_u64, same_outside, store_u64, u64_at};
use crate::region::{CachedLayout, GLOBAL_HEAD};
use crate::state::State;
use vstd::prelude::*;

verus! {

/// The handle that a batch frees through.
pub enum RemoteFreeBatchSource<'a> {
    Allocator(&'a Allocator),
    FreeOnly(&'a FreeOnlyAllocator),
}

/// Allocations of one worker that are linked to each other and not yet published.
#[derive(Clone, Copy, Debug, PartialEq, Eq, Structural)]
pub struct WorkerRemoteFreeChain {
    pub worker_index: u32,
    pub head: usize,
    pub tail: usize,
}

/// Collects frees and publishes remote frees in batches grouped by owning worker.
///
/// Frees owned by the worker represented by the [`Allocator`] handle that created
/// the batch are reclaimed immediately. All other frees are linked into intrusive
/// chains and published when [`Self::flush`] is called.
pub struct RemoteFreeBatch<'a> {
    pub source: RemoteFreeBatchSource<'a>,
    pub chains: Vec<WorkerRemoteFreeChain>,
}

impl State {
    /// Allocations of several workers are freed by others.
    pub open spec fn remote_free_held(self, held: spec_fn(int) -> Seq<int>) -> State {
        State {
            remote: Seq::new(self.remote.len(), |w: int| held(w) + self.remote[w]),
            ..self
        }
    }
}

impl WorkerRemoteFreeChain {
    /// The allocations in the chain.
    pub open spec fn contents(self, l: CachedLayout, mem: Seq<u8>) -> Seq<int> {
        l.thread().segment_items(l.tables(mem).data, self.head as int, self.tail as int)
    }

    /// The chain links allocations in use, all of them its worker's.
    pub open spec fn ok(self, l: CachedLayout, mem: Seq<u8>, s: State) -> bool {
        &&& self.worker_index < l.num_workers
        &&& l.thread().segment(
            l.tables(mem).data,
            self.head as int,
            self.tail as int,
            self.contents(l, mem),
        )
        &&& forall|j: int|
            0 <= j < self.contents(l, mem).len() ==> s.live(l).contains(
                #[trigger] self.contents(l, mem)[j],
            ) && s.owner(l, self.contents(l, mem)[j]) == self.worker_index
    }

    /// A chain stays as it is while its allocations stay in use and keep their links.
    proof fn lemma_kept(self, l: CachedLayout, a: Seq<u8>, b: Seq<u8>, s: State, s2: State)
        requires
            l.wf(),
            l.fits(a.len() as int),
            a.len() == b.len(),
            s.ok(l),
            self.ok(l, a, s),
            forall|y: int|
                self.contents(l, a).contains(y) ==> #[trigger] s2.live(l).contains(y) && s2.owner(
                    l,
                    y,
                ) == s.owner(l, y) && forall|i: int| y <= i < y + 8 ==> #[trigger] b[i] == a[i],
        ensures
            self.ok(l, b, s2),
            self.contents(l, b) == self.contents(l, a),
    {
        let list = self.contents(l, a);
        let th = l.thread();
        let da = l.tables(a).data;
        let db = l.tables(b).data;
        assert forall|y: int| list.contains(y) implies #[trigger] th.next(db, y) == th.next(
            da,
            y,
        ) by {
            let j = list.index_of(y);
            assert(s.live(l).contains(list[j]));
            s.lemma_slot(l, y);
            assert(s2.live(l).contains(y));
            crate::memory::lemma_word_same(da, db, th.slot(y), 8);
        }
        th.lemma_segment_frame(da, db, self.head as int, self.tail as int, list);
        th.lemma_segment_items(db, self.head as int, self.tail as int, list);
        assert forall|j: int| 0 <= j < list.len() implies s2.live(l).contains(#[trigger] list[j])
            && s2.owner(l, list[j]) == self.worker_index by {
            assert(list.contains(list[j]));
            assert(s.live(l).contains(list[j]));
            assert(s2.live(l).contains(list[j]));
        }
    }
}

impl<'a> RemoteFreeBatchSource<'a> {
    pub open spec fn base_spec(self) -> AllocatorBase {
        match self {
            RemoteFreeBatchSource::Allocator(allocator) => allocator.base,
            RemoteFreeBatchSource::FreeOnly(allocator) => allocator.base,
        }
    }

    /// Whether the batch belongs to the given worker.
    pub open spec fn is_worker(self, worker: int) -> bool {
        match self {
            RemoteFreeBatchSource::Allocator(allocator) => allocator.worker_index == worker,
            RemoteFreeBatchSource::FreeOnly(_) => false,
        }
    }

    pub open spec fn valid(self, mem: Seq<u8>) -> bool {
        match self {
            RemoteFreeBatchSource::Allocator(allocator) => allocator.valid(mem),
            RemoteFreeBatchSource::FreeOnly(allocator) => allocator.valid(mem),
        }
    }

    fn base(&self) -> (base: &AllocatorBase)
        ensures
            *base == self.base_spec(),
    {
        match self {
            RemoteFreeBatchSource::Allocator(allocator) => &allocator.base,
            RemoteFreeBatchSource::FreeOnly(allocator) => &allocator.base,
        }
    }

    /// Find the offset for an allocation pointer.
    fn offset(&self, ptr: usize) -> (offset: usize)
        requires
            self.base_spec().region.header <= ptr,
        ensures
            offset == ptr - self.base_spec().region.header,
    {
        match self {
            RemoteFreeBatchSource::Allocator(allocator) => allocator.offset(ptr),
            RemoteFreeBatchSource::FreeOnly(allocator) => allocator.offset(ptr),
        }
    }
}

impl AllocatorBase {
    /// Where an allocation is, and which worker owns it; `None` where no worker does.
    pub fn allocation_indexes_and_assigned_worker(&self, mem: &[u8], offset: usize) -> (found:
        Option<(AllocationIndexes, u32)>)
        requires
            self.in_order(mem@),
            offset >= self.layout.slabs_offset,
            self.layout.slab_of(offset as int) < self.layout.num_slabs,
        ensures
            found is None <==> self.state(mem@).owner(self.layout, offset as int)
                >= self.layout.num_workers,
            found matches Some((indexes, worker)) ==> {
                &&& indexes.slab_index == self.layout.slab_of(offset as int)
                &&& indexes.index_within_slab == self.state(mem@).index_in_slab(
                    self.layout,
                    offset as int,
                )
                &&& worker == self.state(mem@).owner(self.layout, offset as int)
            },
    {
        let allocation_indexes = self.find_allocation_indexes(mem, offset);
        proof {
            self.layout.lemma_read_meta(
                mem@,
                self.state(mem@),
                allocation_indexes.slab_index as int,
            );
        }
        let worker_index = load_u32(
            mem,
            self.slab_meta(allocation_indexes.slab_index).assigned_worker,
        );
        if worker_index >= self.layout.num_workers {
            return None;
        }
        Some((allocation_indexes, worker_index))
    }

    /// Links a freed allocation to the one that follows it.
    pub fn set_remote_free_next(&self, mem: &mut [u8], offset: usize, next: usize)
        requires
            offset + 8 <= old(mem)@.len(),
        ensures
            u64_at(final(mem)@, offset as int) == next,
            same_outside(old(mem)@, final(mem)@, offset as int, offset + 8),
    {
        store_u64(mem, offset, next as u64);
    }

    /// A freed allocation that is in no remote free list gets another link.
    proof fn lemma_relinked(self, a: Seq<u8>, b: Seq<u8>, off: int)
        requires
            self.valid(a),
            self.live(a).contains(off),
            same_outside(a, b, off, off + 8),
        ensures
            self.valid(b),
            self.state(b) == self.state(a),
            self.layout.only_bytes(a, b, off, off + 8),
            self.layout.slabs_offset <= off,
            off + 8 <= self.layout.end(),
    {
        let l = self.layout;
        let s = self.state(a);
        s.lemma_slot(l, off);
        self.lemma_fit(s);
        l.lemma_bounds();
        assert forall|v: int, j: int|
            0 <= v < s.remote.len() && 0 <= j < s.remote[v].len() implies (#[trigger] s.remote[v][j]
            + 8 <= off || off + 8 <= s.remote[v][j]) && l.slabs_offset <= s.remote[v][j]
            && s.remote[v][j] + 8 <= l.end() by {
            let y = s.remote[v][j];
            assert(s.is_taken(l, y) && s.owner(l, y) == v);
            s.lemma_slot(l, y);
            assert(s.remote[v].contains(y));
            if y < off {
                s.lemma_apart(l, y, off);
            } else if off < y {
                s.lemma_apart(l, off, y);
            }
        }
        l.lemma_holds_data(a, b, s, off, off + 8);
        self.lemma_in_order(a, b, s);
    }

    /// Puts a chain of freed allocations in front of a worker's remote free list.
    pub fn publish_remote_free_chain(
        &self,
        mem: &mut [u8],
        worker_index: u32,
        head: usize,
        tail: usize,
    )
        requires
            self.valid(old(mem)@),
            (WorkerRemoteFreeChain { worker_index, head, tail }).ok(
                self.layout,
                old(mem)@,
                self.state(old(mem)@),
            ),
        ensures
            self.valid(final(mem)@),
            self.state(final(mem)@) == self.state(old(mem)@).remote_free(
                worker_index as int,
                (WorkerRemoteFreeChain { worker_index, head, tail }).contents(
                    self.layout,
                    old(mem)@,
                ),
            ),
            self.layout.only_bytes(old(mem)@, final(mem)@, tail as int, tail + 8),
    {
        let ghost l = self.layout;
        let ghost th = l.thread();
        let ghost w = worker_index as int;
        let ghost m0 = mem@;
        let ghost s = self.state(m0);
        let ghost chain = WorkerRemoteFreeChain { worker_index, head, tail };
        let ghost list = chain.contents(l, m0);
        proof {
            let last = list[list.len() - 1];
            assert(s.live(l).contains(last));
            s.lemma_slot(l, last);
            self.lemma_fit(s);
            l.lemma_bounds();
            l.lemma_read_worker(m0, s, w);
        }
        let remote_free_head = self.worker_meta(worker_index).remote_free_head;
        let current_head = load_u64(mem, remote_free_head);
        store_u64(mem, tail, current_head);
        let ghost m1 = mem@;
        proof {
            self.lemma_relinked(m0, m1, tail as int);
            l.lemma_read_worker(m1, s, w);
            l.lemma_link(m1, tail as int);
            let da = l.tables(m0).data;
            let db = l.tables(m1).data;
            let remote = s.remote[w];
            assert forall|y: int| list.contains(y) implies !remote.contains(y) by {
                let j = list.index_of(y);
                assert(s.live(l).contains(list[j]));
            }
            assert forall|y: int|
                (list.contains(y) || remote.contains(y)) && y != tail implies #[trigger] th.next(
                db,
                y,
            ) == th.next(da, y) by {
                if list.contains(y) {
                    let j = list.index_of(y);
                    assert(s.live(l).contains(list[j]));
                } else {
                    let j = remote.index_of(y);
                    assert(s.is_taken(l, s.remote[w][j]));
                }
                s.lemma_slot(l, y);
                if y < tail {
                    s.lemma_apart(l, y, tail as int);
                } else {
                    s.lemma_apart(l, tail as int, y);
                }
                crate::memory::lemma_word_same(da, db, th.slot(y), 8);
            }
            th.lemma_splice(
                da,
                db,
                head as int,
                tail as int,
                list,
                current_head as int,
                remote,
            );
        }
        store_u64(mem, remote_free_head, head as u64);
        proof {
            l.lemma_holds_remote_head(m1, mem@, s, w, list + s.remote[w]);
            s.lemma_remote_free(l, w, list);
            self.lemma_in_order(m0, mem@, s.remote_free(w, list));
        }
    }
}

impl<'a> RemoteFreeBatch<'a> {
    /// The state that the region holds.
    pub open spec fn state(self, mem: Seq<u8>) -> State {
        self.source.base_spec().state(mem)
    }

    /// Each worker has at most one chain, and all chains link allocations in use.
    pub open spec fn wf(self, mem: Seq<u8>) -> bool {
        &&& self.source.valid(mem)
        &&& forall|i: int|
            0 <= i < self.chains@.len() ==> (#[trigger] self.chains@[i]).ok(
                self.source.base_spec().layout,
                mem,
                self.state(mem),
            )
        &&& forall|i: int, j: int|
            0 <= i < j < self.chains@.len() ==> (#[trigger] self.chains@[i]).worker_index != (
            #[trigger] self.chains@[j]).worker_index
    }

    /// The chain of a worker, if it has one.
    pub open spec fn chain_of(self, worker: int) -> Option<WorkerRemoteFreeChain> {
        if exists|i: int|
            0 <= i < self.chains@.len() && (#[trigger] self.chains@[i]).worker_index == worker {
            Some(
                self.chains@[choose|i: int|
                    0 <= i < self.chains@.len() && (#[trigger] self.chains@[i]).worker_index
                        == worker],
            )
        } else {
            None
        }
    }

    /// The allocations of a worker that the batch holds, the last one freed first.
    pub open spec fn held(self, mem: Seq<u8>, worker: int) -> Seq<int> {
        match self.chain_of(worker) {
            Some(chain) => chain.contents(self.source.base_spec().layout, mem),
            None => Seq::empty(),
        }
    }

    /// The batch holds an allocation.
    pub open spec fn holds(self, mem: Seq<u8>, off: int) -> bool {
        self.held(
            mem,
            self.state(mem).owner(self.source.base_spec().layout, off),
        ).contains(off)
    }

    /// Which chain is found for a worker.
    proof fn lemma_chain_of(self, mem: Seq<u8>, i: int)
        requires
            self.wf(mem),
            0 <= i < self.chains@.len(),
        ensures
            self.chain_of(self.chains@[i].worker_index as int) == Some(self.chains@[i]),
    {
        let worker = self.chains@[i].worker_index as int;
        let k = choose|k: int|
            0 <= k < self.chains@.len() && (#[trigger] self.chains@[k]).worker_index == worker;
        if k < i {
            assert(self.chains@[k].worker_index != self.chains@[i].worker_index);
        } else if i < k {
            assert(self.chains@[i].worker_index != self.chains@[k].worker_index);
        }
    }

    fn new(source: RemoteFreeBatchSource<'a>) -> (batch: Self)
        ensures
            batch.source == source,
            batch.chains@.len() == 0,
    {
        RemoteFreeBatch { source, chains: Vec::new() }
    }

    /// A batch is not disturbed by what happens to the region, as long as the allocations
    /// that it holds stay in use, keep their owners, and their first bytes are not written.
    pub proof fn law_batch_undisturbed(self, a: Seq<u8>, b: Seq<u8>)
        requires
            self.wf(a),
            self.source.valid(b),
            a.len() == b.len(),
            forall|y: int|
                self.holds(a, y) ==> #[trigger] self.source.base_spec().live(b).contains(y)
                    && self.state(b).owner(self.source.base_spec().layout, y) == self.state(
                    a,
                ).owner(self.source.base_spec().layout, y) && forall|i: int|
                    y <= i < y + 8 ==> #[trigger] b[i] == a[i],
        ensures
            self.wf(b),
            forall|w: int| #[trigger] self.held(b, w) == self.held(a, w),
    {
        let l = self.source.base_spec().layout;
        assert forall|i: int| 0 <= i < self.chains@.len() implies (#[trigger] self.chains@[i]).ok(
            l,
            b,
            self.state(b),
        ) && self.chains@[i].contents(l, b) == self.chains@[i].contents(l, a) by {
            let chain = self.chains@[i];
            self.lemma_chain_of(a, i);
            let list = chain.contents(l, a);
            assert forall|y: int| list.contains(y) implies #[trigger] self.state(b).live(
                l,
            ).contains(y) && self.state(b).owner(l, y) == self.state(a).owner(l, y) && forall|j:
                int|
                y <= j < y + 8 ==> #[trigger] b[j] == a[j] by {
                let j = list.index_of(y);
                assert(self.state(a).live(l).contains(list[j]));
                assert(self.holds(a, y));
                assert(self.source.base_spec().live(b).contains(y));
            }
            chain.lemma_kept(l, a, b, self.state(a), self.state(b));
        }
    }

    /// Free a block of memory from this allocator region.
    ///
    /// Locally owned allocations are reclaimed immediately. Remote frees remain
    /// private to this batch until it is flushed.
    pub fn free_offset(&mut self, mem: &mut [u8], offset: usize)
        requires
            old(self).wf(old(mem)@),
            old(self).source.base_spec().live(old(mem)@).contains(offset as int),
            !old(self).holds(old(mem)@, offset as int),
        ensures
            final(self).wf(final(mem)@),
            final(self).source == old(self).source,
            ({
                let l = old(self).source.base_spec().layout;
                let s = old(self).state(old(mem)@);
                let owner = s.owner(l, offset as int);
                if old(self).source.is_worker(owner) {
                    &&& old(self).state(final(mem)@) == s.local_free(l, offset as int)
                    &&& forall|w: int| #[trigger]
                        final(self).held(final(mem)@, w) == old(self).held(old(mem)@, w)
                    &&& l.only_tables(old(mem)@, final(mem)@)
                } else {
                    &&& old(self).state(final(mem)@) == s
                    &&& final(self).held(final(mem)@, owner) == seq![offset as int] + old(
                        self,
                    ).held(old(mem)@, owner)
                    &&& forall|w: int|
                        w != owner ==> #[trigger] final(self).held(final(mem)@, w) == old(
                            self,
                        ).held(old(mem)@, w)
                    &&& l.only_bytes(old(mem)@, final(mem)@, offset as int, offset + 8)
                }
            }),
    {
        let ghost l = self.source.base_spec().layout;
        let ghost m0 = mem@;
        let ghost s = self.state(m0);
        let ghost off = offset as int;
        proof {
            s.lemma_slot(l, off);
        }
        let (allocation_indexes, worker_index) = match self.source.base().allocation_indexes_and_assigned_worker(
            mem,
            offset,
        ) {
            Some(found) => found,
            None => {
                return ;
            },
        };
        if let RemoteFreeBatchSource::Allocator(allocator) = &self.source {
            if allocator.worker_index == worker_index {
                allocator.free_local(mem, allocation_indexes);
                proof {
                    let after = s.local_free(l, off);
                    s.lemma_local_free(l, off);
                    assert forall|y: int| self.holds(m0, y) implies #[trigger] after.live(
                        l,
                    ).contains(y) && after.owner(l, y) == s.owner(l, y) && forall|i: int|
                        y <= i < y + 8 ==> #[trigger] mem@[i] == m0[i] by {
                        self.lemma_held(m0, y);
                        s.lemma_slot(l, y);
                        s.lemma_put_keeps(l, off, y);
                    }
                    self.law_batch_undisturbed(m0, mem@);
                }
                return ;
            }
        }
        self.push_remote(mem, worker_index, offset);
    }

    /// What the batch holds is in use.
    proof fn lemma_held(self, mem: Seq<u8>, off: int)
        requires
            self.wf(mem),
            self.holds(mem, off),
        ensures
            self.source.base_spec().live(mem).contains(off),
    {
        let l = self.source.base_spec().layout;
        let worker = self.state(mem).owner(l, off);
        let i = choose|i: int|
            0 <= i < self.chains@.len() && (#[trigger] self.chains@[i]).worker_index == worker;
        let list = self.chains@[i].contents(l, mem);
        let j = list.index_of(off);
        assert(self.state(mem).live(l).contains(list[j]));
    }

    /// Free a block of memory from this allocator region.
    ///
    /// Locally owned allocations are reclaimed immediately. Remote frees remain
    /// private to this batch until it is flushed.
    pub fn free(&mut self, mem: &mut [u8], ptr: usize)
        requires
            old(self).wf(old(mem)@),
            old(self).source.base_spec().live(old(mem)@).contains(
                ptr - old(self).source.base_spec().region.header,
            ),
            !old(self).holds(old(mem)@, ptr - old(self).source.base_spec().region.header),
        ensures
            final(self).wf(final(mem)@),
            final(self).source == old(self).source,
            ({
                let l = old(self).source.base_spec().layout;
                let s = old(self).state(old(mem)@);
                let off = ptr - old(self).source.base_spec().region.header;
                let owner = s.owner(l, off);
                if old(self).source.is_worker(owner) {
                    &&& old(self).state(final(mem)@) == s.local_free(l, off)
                    &&& forall|w: int| #[trigger]
                        final(self).held(final(mem)@, w) == old(self).held(old(mem)@, w)
                    &&& l.only_tables(old(mem)@, final(mem)@)
                } else {
                    &&& old(self).state(final(mem)@) == s
                    &&& final(self).held(final(mem)@, owner) == seq![off] + old(self).held(
                        old(mem)@,
                        owner,
                    )
                    &&& forall|w: int|
                        w != owner ==> #[trigger] final(self).held(final(mem)@, w) == old(
                            self,
                        ).held(old(mem)@, w)
                    &&& l.only_bytes(old(mem)@, final(mem)@, off, off + 8)
                }
            }),
    {
        let offset = self.source.offset(ptr);
        self.free_offset(mem, offset);
    }

    /// Add an allocation to its worker's private remote-free chain.
    fn push_remote(&mut self, mem: &mut [u8], worker_index: u32, offset: usize)
        requires
            old(self).wf(old(mem)@),
            old(self).source.base_spec().live(old(mem)@).contains(offset as int),
            !old(self).holds(old(mem)@, offset as int),
            worker_index == old(self).state(old(mem)@).owner(
                old(self).source.base_spec().layout,
                offset as int,
            ),
        ensures
            final(self).wf(final(mem)@),
            final(self).source == old(self).source,
            old(self).state(final(mem)@) == old(self).state(old(mem)@),
            final(self).held(final(mem)@, worker_index as int) == seq![offset as int] + old(
                self,
            ).held(old(mem)@, worker_index as int),
            forall|w: int|
                w != worker_index ==> #[trigger] final(self).held(final(mem)@, w) == old(
                    self,
                ).held(old(mem)@, w),
            old(self).source.base_spec().layout.only_bytes(
                old(mem)@,
                final(mem)@,
                offset as int,
                offset + 8,
            ),
    {
        let ghost base = self.source.base_spec();
        let ghost l = base.layout;
        let ghost th = l.thread();
        let ghost m0 = mem@;
        let ghost s = self.state(m0);
        let ghost off = offset as int;
        let ghost chains0 = self.chains@;
        let ghost before = *self;
        proof {
            s.lemma_slot(l, off);
            l.lemma_bounds();
        }
        let mut i: usize = 0;
        while i < self.chains.len()
            invariant
                i <= self.chains@.len(),
                *self == before,
                before == *old(self),
                chains0 == before.chains@,
                mem@ == m0,
                m0 == old(mem)@,
                base == before.source.base_spec(),
                l == base.layout,
                th == l.thread(),
                off == offset,
                s == before.state(m0),
                before.wf(m0),
                base.live(m0).contains(off),
                !before.holds(m0, off),
                worker_index == s.owner(l, off),
                off + 8 <= m0.len() <= usize::MAX,
                0 <= worker_index < l.num_workers,
                forall|j: int|
                    0 <= j < i ==> (#[trigger] chains0[j]).worker_index != worker_index,
            decreases self.chains@.len() - i,
        {
            if self.chains[i].worker_index == worker_index {
                let ghost chain = chains0[i as int];
                let ghost list = chain.contents(l, m0);
                proof {
                    before.lemma_chain_of(m0, i as int);
                    assert(chain.ok(l, m0, s));
                }
                let head = self.chains[i].head;
                let tail = self.chains[i].tail;
                self.source.base().set_remote_free_next(mem, offset, head);
                let longer = WorkerRemoteFreeChain { worker_index, head: offset, tail };
                self.chains.set(i, longer);
                proof {
                    base.lemma_relinked(m0, mem@, off);
                    l.lemma_link(mem@, off);
                    let da = l.tables(m0).data;
                    let db = l.tables(mem@).data;
                    assert forall|y: int| list.contains(y) implies #[trigger] th.next(db, y)
                        == th.next(da, y) by {
                        let j = list.index_of(y);
                        assert(s.live(l).contains(list[j]));
                        s.lemma_slot(l, y);
                        if y < off {
                            s.lemma_apart(l, y, off);
                        } else {
                            s.lemma_apart(l, off, y);
                        }
                        crate::memory::lemma_word_same(da, db, th.slot(y), 8);
                    }
                    th.lemma_segment_push(da, db, head as int, tail as int, list, off);
                    let list2 = seq![off] + list;
                    th.lemma_segment_items(db, off, tail as int, list2);
                    assert forall|j: int| 0 <= j < list2.len() implies s.live(l).contains(
                        #[trigger] list2[j],
                    ) && s.owner(l, list2[j]) == worker_index by {
                        if j > 0 {
                            assert(list2[j] == list[j - 1]);
                        }
                    }
                    assert(longer.ok(l, mem@, s));
                    before.lemma_others_kept(*self, m0, mem@, i as int, off);
                }
                return ;
            }
            i = i + 1;
        }
        // Register the destination before modifying the allocation.
        let chain = WorkerRemoteFreeChain { worker_index, head: offset, tail: offset };
        self.chains.push(chain);
        proof {
            let data = l.tables(m0).data;
            assert(th.segment(data, off, off, seq![off]));
            th.lemma_segment_items(data, off, off, seq![off]);
            assert(chain.ok(l, m0, s));
            before.lemma_others_kept(*self, m0, m0, chains0.len() as int, off);
            assert(before.chain_of(worker_index as int) is None);
            assert(seq![off] + Seq::<int>::empty() =~= seq![off]);
        }
    }

    /// A batch one of whose chains has changed, or that has one more at the end.
    proof fn lemma_others_kept(self, other: Self, a: Seq<u8>, b: Seq<u8>, k: int, off: int)
        requires
            self.wf(a),
            self.source.base_spec().live(a).contains(off),
            !self.holds(a, off),
            other.source == self.source,
            0 <= k <= self.chains@.len(),
            k == self.chains@.len() ==> other.chains@ == self.chains@.push(other.chains@[k]),
            k < self.chains@.len() ==> other.chains@ == self.chains@.update(k, other.chains@[k])
                && self.chains@[k].worker_index == other.chains@[k].worker_index,
            forall|i: int|
                0 <= i < self.chains@.len() && i != k ==> (#[trigger] self.chains@[i]).worker_index
                    != other.chains@[k].worker_index,
            other.chains@[k].ok(self.source.base_spec().layout, b, self.state(a)),
            self.source.base_spec().valid(b),
            self.state(b) == self.state(a),
            same_outside(a, b, off, off + 8),
        ensures
            other.wf(b),
            other.held(b, other.chains@[k].worker_index as int) == other.chains@[k].contents(
                self.source.base_spec().layout,
                b,
            ),
            forall|w: int|
                w != other.chains@[k].worker_index ==> #[trigger] other.held(b, w) == self.held(
                    a,
                    w,
                ),
    {
        let l = self.source.base_spec().layout;
        let s = self.state(a);
        assert forall|i: int| 0 <= i < self.chains@.len() && i != k implies (
        #[trigger] self.chains@[i]).ok(l, b, s) && self.chains@[i].contents(l, b)
            == self.chains@[i].contents(l, a) by {
            let chain = self.chains@[i];
            self.lemma_chain_of(a, i);
            let list = chain.contents(l, a);
            assert forall|y: int| list.contains(y) implies #[trigger] s.live(l).contains(y)
                && s.owner(l, y) == s.owner(l, y) && forall|j: int|
                y <= j < y + 8 ==> #[trigger] b[j] == a[j] by {
                let j = list.index_of(y);
                assert(s.live(l).contains(list[j]));
                assert(self.holds(a, y));
                s.lemma_slot(l, y);
                s.lemma_slot(l, off);
                if y < off {
                    s.lemma_apart(l, y, off);
                } else if off < y {
                    s.lemma_apart(l, off, y);
                }
            }
            chain.lemma_kept(l, a, b, s, s);
        }
        assert forall|i: int| 0 <= i < other.chains@.len() implies (#[trigger] other.chains@[i]).ok(
            l,
            b,
            s,
        ) by {
            if i != k {
                assert(other.chains@[i] == self.chains@[i]);
            }
        }
        assert forall|i: int, j: int| 0 <= i < j < other.chains@.len() implies (
        #[trigger] other.chains@[i]).worker_index != (#[trigger] other.chains@[j]).worker_index by {
            if i != k {
                assert(other.chains@[i] == self.chains@[i]);
            }
            if j != k {
                assert(other.chains@[j] == self.chains@[j]);
            }
        }
        other.lemma_chain_of(b, k);
        assert forall|w: int| w != other.chains@[k].worker_index implies #[trigger] other.held(b, w)
            == self.held(a, w) by {
            if self.chain_of(w) is Some {
                let i = choose|i: int|
                    0 <= i < self.chains@.len() && (#[trigger] self.chains@[i]).worker_index == w;
                assert(i != k);
                assert(other.chains@[i] == self.chains@[i]);
                self.lemma_chain_of(a, i);
                other.lemma_chain_of(b, i);
            } else if other.chain_of(w) is Some {
                let i = choose|i: int|
                    0 <= i < other.chains@.len() && (#[trigger] other.chains@[i]).worker_index == w;
                assert(i != k);
                assert(other.chains@[i] == self.chains@[i]);
            }
        }
    }

    /// A batch that has lost its last chain.
    proof fn lemma_shorter(self, other: Self, mem: Seq<u8>)
        requires
            self.wf(mem),
            other.source == self.source,
            self.chains@.len() > 0,
            other.chains@ == self.chains@.drop_last(),
        ensures
            other.wf(mem),
            other.chain_of(self.chains@.last().worker_index as int) is None,
            self.chain_of(self.chains@.last().worker_index as int) == Some(self.chains@.last()),
            forall|w: int|
                w != self.chains@.last().worker_index ==> #[trigger] other.chain_of(w)
                    == self.chain_of(w),
    {
        let n = other.chains@.len() as int;
        assert forall|i: int| 0 <= i < n implies #[trigger] other.chains@[i] == self.chains@[i] by {}
        self.lemma_chain_of(mem, n);
        assert forall|i: int| 0 <= i < n implies (#[trigger] other.chains@[i]).worker_index
            != self.chains@[n].worker_index by {
            assert(self.chains@[i].worker_index != self.chains@[n].worker_index);
        }
        assert forall|w: int| w != self.chains@.last().worker_index implies #[trigger] other.chain_of(
            w,
        ) == self.chain_of(w) by {
            if self.chain_of(w) is Some {
                let i = choose|i: int|
                    0 <= i < self.chains@.len() && (#[trigger] self.chains@[i]).worker_index == w;
                assert(other.chains@[i] == self.chains@[i]);
                self.lemma_chain_of(mem, i);
                other.lemma_chain_of(mem, i);
            } else if other.chain_of(w) is Some {
                let i = choose|i: int|
                    0 <= i < other.chains@.len() && (#[trigger] other.chains@[i]).worker_index == w;
                assert(other.chains@[i] == self.chains@[i]);
            }
        }
    }

    /// Publish all remote frees currently held by this batch.
    ///
    /// The batch may be reused after flushing.
    pub fn flush(&mut self, mem: &mut [u8])
        requires
            old(self).wf(old(mem)@),
        ensures
            final(self).wf(final(mem)@),
            final(self).source == old(self).source,
            final(self).chains@.len() == 0,
            old(self).state(final(mem)@) == old(self).state(old(mem)@).remote_free_held(
                |w: int| old(self).held(old(mem)@, w),
            ),
            forall|y: int| #[trigger]
                old(self).source.base_spec().live(final(mem)@).contains(y) <==> old(
                    self,
                ).source.base_spec().live(old(mem)@).contains(y) && !old(self).holds(old(mem)@, y),
            final(mem)@.len() == old(mem)@.len(),
            forall|i: int|
                (0 <= i < GLOBAL_HEAD || old(self).source.base_spec().layout.slabs_offset <= i
                    < old(mem)@.len()) && !old(self).links_at(old(mem)@, i)
                    ==> #[trigger] final(mem)@[i] == old(mem)@[i],
    {
        let ghost before = *self;
        let ghost m0 = mem@;
        let ghost base = self.source.base_spec();
        let ghost l = base.layout;
        let ghost s0 = self.state(m0);
        proof {
            let s1 = s0.published(before, *self, m0);
            assert forall|w: int| 0 <= w < s0.remote.len() implies s1.remote[w]
                == s0.remote[w] by {
                assert(Seq::<int>::empty() + s0.remote[w] =~= s0.remote[w]);
                if self.chain_of(w) is None {
                    assert(before.held(m0, w) == Seq::<int>::empty());
                }
            }
            assert(s1.remote =~= s0.remote);
        }
        loop
            invariant
                base == before.source.base_spec(),
                l == base.layout,
                before == *old(self),
                m0 == old(mem)@,
                before.wf(m0),
                s0 == before.state(m0),
                self.source == before.source,
                self.wf(mem@),
                mem@.len() == m0.len(),
                self.state(mem@) == s0.published(before, *self, m0),
                forall|w: int| #[trigger] self.still_holds(mem@, before, m0, w),
                forall|y: int| #[trigger]
                    base.live(mem@).contains(y) <==> base.live(m0).contains(y) && !(before.holds(
                        m0,
                        y,
                    ) && self.chain_of(s0.owner(l, y)) is None),
                forall|i: int|
                    (0 <= i < GLOBAL_HEAD || l.slabs_offset <= i < m0.len()) && !before.links_at(
                        m0,
                        i,
                    ) ==> #[trigger] mem@[i] == m0[i],
            decreases self.chains@.len(),
        {
            let ghost current = *self;
            let ghost m1 = mem@;
            let ghost s1 = self.state(m1);
            match self.chains.pop() {
                None => {
                    proof {
                        let s2 = s0.remote_free_held(|w: int| old(self).held(old(mem)@, w));
                        assert forall|w: int| 0 <= w < s0.remote.len() implies s1.remote[w]
                            == s2.remote[w] by {
                            assert(self.chain_of(w) is None);
                        }
                        assert(s1.remote =~= s2.remote);
                        assert forall|y: int| #[trigger]
                            base.live(mem@).contains(y) <==> base.live(m0).contains(y)
                                && !before.holds(m0, y) by {
                            assert(self.chain_of(s0.owner(l, y)) is None);
                        }
                    }
                    return ;
                },
                Some(chain) => {
                    let ghost w = chain.worker_index as int;
                    proof {
                        assert(chain == current.chains@[current.chains@.len() - 1]);
                        assert(chain.ok(l, m1, s1));
                        current.lemma_shorter(*self, m1);
                        assert(current.still_holds(m1, before, m0, w));
                        assert(current.held(m1, w) == before.held(m0, w));
                    }
                    self.source.base().publish_remote_free_chain(
                        mem,
                        chain.worker_index,
                        chain.head,
                        chain.tail,
                    );
                    proof {
                        let list = chain.contents(l, m1);
                        let s2 = s1.remote_free(w, list);
                        s1.lemma_remote_free(l, w, list);
                        assert forall|y: int| self.holds(m1, y) implies #[trigger] base.live(
                            mem@,
                        ).contains(y) && s2.owner(l, y) == s1.owner(l, y) && forall|i: int|
                            y <= i < y + 8 ==> #[trigger] mem@[i] == m1[i] by {
                            self.lemma_held(m1, y);
                            s1.lemma_slot(l, y);
                            let v = s1.owner(l, y);
                            if list.contains(y) {
                                let j = list.index_of(y);
                                assert(s1.owner(l, list[j]) == w);
                            }
                            assert(s1.live(l).contains(list[list.len() - 1]));
                            assert(list.contains(list[list.len() - 1]));
                            let t = chain.tail as int;
                            assert(y != t);
                            if y < t {
                                s1.lemma_apart(l, y, t);
                            } else {
                                s1.lemma_apart(l, t, y);
                            }
                            s1.lemma_slot(l, t);
                        }
                        self.law_batch_undisturbed(m1, mem@);
                        let s3 = s0.published(before, *self, m0);
                        assert forall|v: int| 0 <= v < s0.remote.len() implies s2.remote[v]
                            == s3.remote[v] by {
                            if v == w {
                                assert(current.chain_of(w) is Some);
                                assert(Seq::<int>::empty() + s0.remote[w] =~= s0.remote[w]);
                            }
                        }
                        assert(s2.remote =~= s3.remote);
                        assert forall|y: int| #[trigger]
                            base.live(mem@).contains(y) <==> base.live(m0).contains(y) && !(
                            before.holds(m0, y) && self.chain_of(s0.owner(l, y)) is None) by {
                            let v = s0.owner(l, y);
                            assert(base.live(m1).contains(y) <==> base.live(m0).contains(y) && !(
                            before.holds(m0, y) && current.chain_of(v) is None));
                            assert(base.live(mem@).contains(y) <==> base.live(m1).contains(y)
                                && !list.contains(y));
                            if list.contains(y) {
                                let j = list.index_of(y);
                                assert(s1.owner(l, list[j]) == w);
                            }
                        }
                        assert forall|v: int| #[trigger]
                            self.still_holds(mem@, before, m0, v) by {
                            assert(current.still_holds(m1, before, m0, v));
                            if self.chain_of(v) is Some {
                                assert(v != w);
                                assert(self.chain_of(v) == current.chain_of(v));
                                assert(self.held(mem@, v) == self.held(m1, v));
                            }
                        }
                        assert forall|i: int|
                            (0 <= i < GLOBAL_HEAD || l.slabs_offset <= i < m0.len())
                                && !before.links_at(m0, i) implies #[trigger] mem@[i] == m0[i] by {
                            let t = chain.tail as int;
                            assert(list[list.len() - 1] == t);
                            assert(before.held(m0, w).contains(t));
                            assert(mem@[i] == m1[i]);
                        }
                    }
                },
            }
        }
    }

    /// What the batch holds of a worker's allocations, it held before.
    spec fn still_holds(self, mem: Seq<u8>, before: Self, mem0: Seq<u8>, worker: int) -> bool {
        self.chain_of(worker) is Some ==> {
            &&& self.held(mem, worker) == before.held(mem0, worker)
            &&& before.chain_of(worker) == self.chain_of(worker)
        }
    }

    /// A byte that serves to link an allocation that the batch holds.
    pub open spec fn links_at(self, mem: Seq<u8>, i: int) -> bool {
        exists|w: int, y: int| #[trigger] self.held(mem, w).contains(y) && y <= i < y + 8
    }
}

impl State {
    /// The chains that a batch no longer has are published.
    spec fn published(self, before: RemoteFreeBatch<'_>, now: RemoteFreeBatch<'_>, mem: Seq<u8>) -> State {
        State {
            remote: Seq::new(
                self.remote.len(),
                |w: int|
                    if now.chain_of(w) is Some {
                        Seq::empty()
                    } else {
                        before.held(mem, w)
                    } + self.remote[w],
            ),
            ..self
        }
    }
}

impl Allocator {
    /// Create a batch that groups remote frees by owning worker.
    ///
    /// Locally owned allocations are reclaimed immediately. Remote frees are
    /// published by [`RemoteFreeBatch::flush`].
    pub fn remote_free_batch<'a>(&'a self) -> (batch: RemoteFreeBatch<'a>)
        ensures
            batch.source == RemoteFreeBatchSource::Allocator(self),
            batch.chains@.len() == 0,
    {
        RemoteFreeBatch::new(RemoteFreeBatchSource::Allocator(self))
    }
}

impl FreeOnlyAllocator {
    /// Create a batch that groups remote frees by owning worker.
    ///
    /// Remote frees are published by [`RemoteFreeBatch::flush`].
    pub fn remote_free_batch<'a>(&'a self) -> (batch: RemoteFreeBatch<'a>)
        ensures
            batch.source == RemoteFreeBatchSource::FreeOnly(self),
            batch.chains@.len() == 0,
    {
        RemoteFreeBatch::new(RemoteFreeBatchSource::FreeOnly(self))
    }
}

/// A batch of a worker's handle reclaims that worker's allocations at once, and no others; one
/// of a handle that can only free reclaims none. Both are for the region of their handle.
pub proof fn law_batch_source(allocator: &Allocator, free_only: &FreeOnlyAllocator, worker: int)
    ensures
        RemoteFreeBatchSource::Allocator(allocator).is_worker(worker) <==> worker
            == allocator.worker_index,
        !RemoteFreeBatchSource::FreeOnly(free_only).is_worker(worker),
        RemoteFreeBatchSource::Allocator(allocator).base_spec() == allocator.base,
        RemoteFreeBatchSource::FreeOnly(free_only).base_spec() == free_only.base,
{
}

/// What a batch publishes comes in front of what is queued for each worker, in the same order,
/// and nothing else changes.
pub proof fn law_flush_effect(s: State, held: spec_fn(int) -> Seq<int>, w: int)
    requires
        0 <= w < s.remote.len(),
    ensures
        ({
            let after = s.remote_free_held(held);
            &&& after.remote.len() == s.remote.len()
            &&& after.remote[w] == held(w) + s.remote[w]
            &&& after == (State { remote: after.remote, ..s })
        }),
{
}

/// The batch holds for each worker exactly the allocations of its chain.
pub proof fn law_batch_holds(batch: RemoteFreeBatch<'_>, mem: Seq<u8>, worker: int)
    requires
        batch.wf(mem),
    ensures
        batch.held(mem, worker).len() > 0 <==> exists|i: int|
            0 <= i < batch.chains@.len() && (#[trigger] batch.chains@[i]).worker_index == worker,
        forall|j: int|
            0 <= j < batch.held(mem, worker).len() ==> {
                let off = #[trigger] batch.held(mem, worker)[j];
                &&& batch.source.base_spec().live(mem).contains(off)
                &&& batch.state(mem).owner(batch.source.base_spec().layout, off) == worker
            },
{
    if exists|i: int|
        0 <= i < batch.chains@.len() && (#[trigger] batch.chains@[i]).worker_index == worker {
        let i = choose|i: int|
            0 <= i < batch.chains@.len() && (#[trigger] batch.chains@[i]).worker_index == worker;
        batch.lemma_chain_of(mem, i);
        let chain = batch.chains@[i];
        let l = batch.source.base_spec().layout;
        assert(chain.ok(l, mem, batch.state(mem)));
        assert(batch.held(mem, worker) == chain.contents(l, mem));
    }
}

/// The bytes that serve as links of a batch are the first eight of allocations that it holds.
pub proof fn law_batch_links(batch: RemoteFreeBatch<'_>, mem: Seq<u8>, i: int)
    requires
        batch.links_at(mem, i),
    ensures
        exists|w: int, off: int| #[trigger]
            batch.held(mem, w).contains(off) && off <= i < off + 8,
{
}

} // verus!
