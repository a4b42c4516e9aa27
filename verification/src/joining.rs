//! How handles to a region come and go.
use crate::allocator::{Allocator, AllocatorBase, FreeOnlyAllocator, MappedRegion};
use crate::error::Error;
use crate::header::Header;
use crate::init::{cached, join_error, offsets_fit, plan_spec};
use crate::init::initialize::fresh_state;
use crate::memory::{agree, load_u8, store_u8};
use crate::region::{CachedLayout, CLAIMED};
use crate::state::State;
use vstd::prelude::*;

verus! {

/// The first worker slot that nobody has taken.
pub open spec fn is_first_free(claimed: Seq<u8>, w: int) -> bool {
    &&& 0 <= w < claimed.len()
    &&& claimed[w] == 0
    &&& forall|v: int| 0 <= v < w ==> #[trigger] claimed[v] != 0
}

/// All worker slots are taken.
pub open spec fn all_claimed(claimed: Seq<u8>) -> bool {
    forall|v: int| 0 <= v < claimed.len() ==> #[trigger] claimed[v] != 0
}

impl State {
    /// A worker slot is taken.
    pub open spec fn claim(self, w: int) -> State {
        State { claimed: self.claimed.update(w, 1), ..self }
    }

    /// A worker slot is given back.
    pub open spec fn release(self, w: int) -> State {
        State { claimed: self.claimed.update(w, 0), ..self }
    }
}

impl AllocatorBase {
    /// What a handle for the region `mem`, mapped at `header`, shares with all others.
    pub open spec fn of(mem: Seq<u8>, header: usize) -> AllocatorBase {
        AllocatorBase {
            region: MappedRegion { header, file_size: mem.len() as usize },
            layout: CachedLayout::of(Header::of(mem)),
        }
    }

    /// A worker joined the region `a`, which became `b`: it got the first free slot, or none
    /// is free.
    pub open spec fn joined(
        self,
        a: Seq<u8>,
        b: Seq<u8>,
        result: Result<Allocator, Error>,
    ) -> bool {
        if all_claimed(self.state(a).claimed) {
            result == Err::<Allocator, Error>(Error::NoAvailableWorkers) && b == a
        } else {
            &&& result matches Ok(allocator)
            &&& allocator.base == self
            &&& is_first_free(self.state(a).claimed, allocator.worker_index as int)
            &&& allocator.valid(b)
            &&& self.state(b) == self.state(a).claim(allocator.worker_index as int)
            &&& self.layout.only_tables(a, b)
        }
    }

    /// Writes the claim of a worker slot.
    fn set_claimed(&self, mem: &mut [u8], worker_index: u32, value: u8)
        requires
            self.valid(old(mem)@),
            worker_index < self.layout.num_workers,
        ensures
            self.valid(final(mem)@),
            self.state(final(mem)@) == (State {
                claimed: self.state(old(mem)@).claimed.update(worker_index as int, value),
                ..self.state(old(mem)@)
            }),
            self.layout.only_tables(old(mem)@, final(mem)@),
    {
        let ghost l = self.layout;
        let ghost w = worker_index as int;
        let ghost m0 = mem@;
        let ghost s = self.state(m0);
        proof {
            self.lemma_fit(s);
            l.lemma_read_worker(m0, s, w);
        }
        store_u8(mem, self.worker_meta(worker_index).claimed, value);
        proof {
            let after = State { claimed: s.claimed.update(w, value), ..s };
            l.lemma_holds_worker(m0, mem@, s, w, CLAIMED as int, 1);
            s.lemma_same_ok(l, after);
            self.lemma_in_order(m0, mem@, after);
        }
    }

    /// Takes the first worker slot that is free.
    pub fn claim_any_worker_index(&self, mem: &mut [u8]) -> (worker_index: Option<u32>)
        requires
            self.valid(old(mem)@),
        ensures
            self.valid(final(mem)@),
            worker_index is None <==> all_claimed(self.state(old(mem)@).claimed),
            worker_index is None ==> final(mem)@ == old(mem)@,
            worker_index matches Some(w) ==> {
                &&& w < self.layout.num_workers
                &&& is_first_free(self.state(old(mem)@).claimed, w as int)
                &&& self.state(final(mem)@) == self.state(old(mem)@).claim(w as int)
            },
            self.layout.only_tables(old(mem)@, final(mem)@),
    {
        let ghost m0 = mem@;
        let ghost s = self.state(m0);
        let ghost l = self.layout;
        proof {
            l.lemma_bounds();
        }
        let num_workers = Header::read(mem).num_workers;
        let mut worker_index: u32 = 0;
        while worker_index < num_workers
            invariant
                mem@ == m0,
                m0 == old(mem)@,
                self.valid(mem@),
                s == self.state(m0),
                l == self.layout,
                num_workers == l.num_workers,
                worker_index <= num_workers,
                forall|v: int| 0 <= v < worker_index ==> #[trigger] s.claimed[v] != 0,
            decreases num_workers - worker_index,
        {
            proof {
                l.lemma_read_worker(m0, s, worker_index as int);
            }
            if load_u8(mem, self.worker_meta(worker_index).claimed) == 0 {
                self.set_claimed(mem, worker_index, 1);
                return Some(worker_index);
            }
            worker_index = worker_index + 1;
        }
        None
    }
}

impl Allocator {
    /// Create a new `Allocator` in the region `mem`, mapped at `header`, with the given
    /// parameters. The region is fresh: its bytes are those of a file that was just extended
    /// to that size, in place of the `file_len` bytes that it held before.
    /// `min_workers` is the minimum number of workers to support.
    pub fn create(
        mem: &mut [u8],
        header: usize,
        file_len: u64,
        min_workers: u32,
        slab_size: u32,
    ) -> (result: Result<Self, Error>)
        requires
            old(mem)@.len() <= isize::MAX,
            header + old(mem)@.len() <= usize::MAX,
            offsets_fit(old(mem)@.len() as int, slab_size as int, min_workers as int),
            forall|i: int| 0 <= i < old(mem)@.len() ==> #[trigger] old(mem)@[i] == 0,
        ensures
            match plan_spec(
                old(mem)@.len() as int,
                file_len as int,
                min_workers as int,
                slab_size as int,
            ) {
                Err(error) => result == Err::<Self, Error>(error) && final(mem)@ == old(mem)@,
                Ok(plan) => {
                    &&& result matches Ok(allocator)
                    &&& allocator.base == AllocatorBase::of(final(mem)@, header)
                    &&& allocator.base.layout == cached(plan, slab_size)
                    &&& allocator.worker_index == 0
                    &&& allocator.valid(final(mem)@)
                    &&& allocator.state(final(mem)@) == fresh_state(allocator.base.layout).claim(0)
                    &&& join_error(final(mem)@) is None
                    &&& agree(
                        old(mem)@,
                        final(mem)@,
                        plan.layout.slabs_offset as int,
                        old(mem)@.len() as int,
                    )
                },
            },
            final(mem)@.len() == old(mem)@.len(),
    {
        let ghost m0 = mem@;
        match crate::init::create(mem, file_len, min_workers, slab_size) {
            Ok(()) => (),
            Err(error) => {
                return Err(error);
            },
        }
        proof {
            let plan = plan_spec(
                m0.len() as int,
                file_len as int,
                min_workers as int,
                slab_size as int,
            )->Ok_0;
            let l = cached(plan, slab_size);
            crate::init::law_plan_fits(m0.len() as int, min_workers as int, slab_size);
            l.lemma_bounds();
            l.lemma_state(mem@, fresh_state(l));
        }
        let base = AllocatorBase::from_mapping(mem, header);
        let ghost m1 = mem@;
        let worker_index = match base.claim_any_worker_index(mem) {
            Some(worker_index) => worker_index,
            None => {
                assert(fresh_state(base.layout).claimed[0] == 0);
                return Err(Error::NoAvailableWorkers);
            },
        };
        proof {
            Header::lemma_same(m1, mem@);
            crate::init::law_join_stable(m1, mem@);
            if worker_index > 0 {
                assert(fresh_state(base.layout).claimed[0] == 0);
            }
        }
        Allocator::new(base, worker_index)
    }

    /// Join an existing allocator in the region `mem`, mapped at `header`.
    /// Picks the first available worker slot.
    pub fn join(mem: &mut [u8], header: usize) -> (result: Result<Self, Error>)
        requires
            old(mem)@.len() <= isize::MAX,
            join_error(old(mem)@) is None ==> AllocatorBase::of(old(mem)@, header).valid(old(mem)@),
        ensures
            match join_error(old(mem)@) {
                Some(error) => result == Err::<Self, Error>(error) && final(mem)@ == old(mem)@,
                None => AllocatorBase::of(old(mem)@, header).joined(old(mem)@, final(mem)@, result),
            },
    {
        match crate::init::join(mem) {
            Ok(()) => (),
            Err(error) => {
                return Err(error);
            },
        }
        let base = AllocatorBase::from_mapping(mem, header);
        Self::join_from_base(mem, &base)
    }

    /// Join an existing allocator using the same in-process mapping.
    /// Picks the first available worker slot.
    pub fn join_from_existing(mem: &mut [u8], existing: &Allocator) -> (result: Result<Self, Error>)
        requires
            existing.base.valid(old(mem)@),
        ensures
            existing.base.joined(old(mem)@, final(mem)@, result),
    {
        Self::join_from_base(mem, &existing.base)
    }

    /// Join an existing free-only allocator using the same in-process mapping.
    /// Picks the first available worker slot.
    pub fn join_from_existing_free_only(
        mem: &mut [u8],
        existing: &FreeOnlyAllocator,
    ) -> (result: Result<Self, Error>)
        requires
            existing.base.valid(old(mem)@),
        ensures
            existing.base.joined(old(mem)@, final(mem)@, result),
    {
        Self::join_from_base(mem, &existing.base)
    }

    /// Join using a shared [`AllocatorBase`].
    /// Picks the first available worker slot.
    fn join_from_base(mem: &mut [u8], base: &AllocatorBase) -> (result: Result<Self, Error>)
        requires
            base.valid(old(mem)@),
        ensures
            base.joined(old(mem)@, final(mem)@, result),
    {
        let ghost s = base.state(mem@);
        let worker_index = match base.claim_any_worker_index(mem) {
            Some(worker_index) => worker_index,
            None => {
                return Err(Error::NoAvailableWorkers);
            },
        };
        proof {
            assert(s.claimed[worker_index as int] == 0);
        }
        Allocator::new(*base, worker_index)
    }

    /// Creates a new `Allocator` for the given worker index.
    pub fn new(base: AllocatorBase, worker_index: u32) -> (result: Result<Self, Error>)
        ensures
            result == if worker_index < base.layout.num_workers {
                Ok(Allocator { base, worker_index })
            } else {
                Err(Error::InvalidWorkerIndex)
            },
    {
        if worker_index >= base.layout.num_workers {
            return Err(Error::InvalidWorkerIndex);
        }
        Ok(Allocator { base, worker_index })
    }

    /// Gives the worker slot back. What was allocated from it stays in use, and whoever gets
    /// the slot next owns its slabs.
    pub fn release_worker(self, mem: &mut [u8])
        requires
            self.valid(old(mem)@),
        ensures
            self.base.valid(final(mem)@),
            self.state(final(mem)@) == self.state(old(mem)@).release(self.worker_index as int),
            self.base.layout.only_tables(old(mem)@, final(mem)@),
    {
        self.base.set_claimed(mem, self.worker_index, 0);
    }
}

impl FreeOnlyAllocator {
    /// Join an existing allocator in the region `mem`, mapped at `header`.
    pub fn join(mem: &[u8], header: usize) -> (result: Result<Self, Error>)
        requires
            mem@.len() <= isize::MAX,
        ensures
            result == match join_error(mem@) {
                Some(error) => Err(error),
                None => Ok(FreeOnlyAllocator { base: AllocatorBase::of(mem@, header) }),
            },
    {
        match crate::init::join(mem) {
            Ok(()) => (),
            Err(error) => {
                return Err(error);
            },
        }
        Ok(FreeOnlyAllocator { base: AllocatorBase::from_mapping(mem, header) })
    }

    /// Join an existing allocator using the same in-process mapping.
    pub fn join_from_existing(existing: &Allocator) -> (result: Self)
        ensures
            result.base == existing.base,
    {
        Self::from_base(&existing.base)
    }

    /// Join an existing free-only allocator using the same in-process mapping.
    pub fn join_from_existing_free_only(existing: &FreeOnlyAllocator) -> (result: Self)
        ensures
            result.base == existing.base,
    {
        Self::from_base(&existing.base)
    }

    fn from_base(base: &AllocatorBase) -> (result: Self)
        ensures
            result.base == *base,
    {
        FreeOnlyAllocator { base: *base }
    }
}

/// Whoever joins gets the first worker slot that is free, which is taken from then on, and is
/// turned away exactly when none is; nothing else changes.
pub proof fn law_joining(base: AllocatorBase, a: Seq<u8>, b: Seq<u8>, result: Result<Allocator, Error>)
    requires
        base.joined(a, b, result),
    ensures
        ({
            let before = base.state(a).claimed;
            let after = base.state(b).claimed;
            &&& result is Err <==> forall|v: int|
                0 <= v < before.len() ==> #[trigger] before[v] != 0
            &&& result is Err ==> result == Err::<Allocator, Error>(Error::NoAvailableWorkers) && b
                == a
            &&& result matches Ok(allocator) ==> {
                let w = allocator.worker_index as int;
                &&& allocator.base == base
                &&& 0 <= w < before.len()
                &&& before[w] == 0
                &&& forall|v: int| 0 <= v < w ==> #[trigger] before[v] != 0
                &&& after.len() == before.len()
                &&& after[w] != 0
                &&& forall|v: int|
                    0 <= v < before.len() && v != w ==> #[trigger] after[v] == before[v]
                &&& base.state(b) == (State { claimed: after, ..base.state(a) })
            }
        }),
{
    if let Ok(allocator) = result {
        assert(base.state(a).claimed[allocator.worker_index as int] == 0);
    }
}

/// A worker slot that is given back is free again, and nothing else changes.
pub proof fn law_leaving(s: State, w: int)
    requires
        0 <= w < s.claimed.len(),
    ensures
        ({
            let after = s.release(w);
            &&& after.claimed.len() == s.claimed.len()
            &&& after.claimed[w] == 0
            &&& forall|v: int|
                0 <= v < s.claimed.len() && v != w ==> #[trigger] after.claimed[v] == s.claimed[v]
            &&& after == (State { claimed: after.claimed, ..s })
        }),
{
}

/// A handle is for the region that it was made from: it remembers where the region is mapped, how
/// large it is, and what the header says.
pub proof fn law_handle(mem: Seq<u8>, header: usize)
    requires
        mem.len() <= usize::MAX,
    ensures
        ({
            let base = AllocatorBase::of(mem, header);
            let words = Header::of(mem);
            &&& base.region.header == header
            &&& base.region.file_size == mem.len()
            &&& base.layout.num_slabs == words.num_slabs
            &&& base.layout.num_workers == words.num_workers
            &&& base.layout.slab_size == words.slab_size
            &&& base.layout.free_list_elements_offset == words.free_list_elements_offset
            &&& base.layout.slab_shared_meta_offset == words.slab_shared_meta_offset
            &&& base.layout.slab_free_stacks_offset == words.slab_free_stacks_offset
            &&& base.layout.slabs_offset == words.slabs_offset
        }),
{
}

} // verus!
