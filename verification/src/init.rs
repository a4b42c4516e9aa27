//! Creating a region and joining one.
use crate::align::is_power_of_two;
use crate::error::Error;
use crate::header::layout::{
    layout_fits, layout_for_num_slabs, layout_spec, max_workers, max_workers_spec, slabs_at,
    slabs_start, suffices, AllocatorLayout, HEADER_SIZE,
};
use crate::header::{Header, MAGIC, VERSION};
use crate::memory::agree;
use crate::region::{valid_slab_size, CachedLayout, GLOBAL_HEAD};
use crate::size_classes::{MAX_SIZE, MIN_SIZE};
use vstd::arithmetic::div_mod::*;
use vstd::arithmetic::mul::*;
use vstd::prelude::*;

pub mod initialize;

verus! {

/// How many workers a new region has room for, and where its parts lie.
#[derive(Clone, Copy, Debug, PartialEq, Eq, Structural)]
pub struct Plan {
    pub num_workers: u32,
    pub layout: AllocatorLayout,
}

/// What is wrong with a slab size, or with the number of slabs it leads to.
pub open spec fn size_error(file_size: int, slab_size: int) -> Option<Error> {
    if !valid_slab_size(slab_size) {
        Some(Error::InvalidSlabSize)
    } else if file_size / slab_size > u32::MAX {
        Some(Error::InvalidFileSize)
    } else {
        None
    }
}

/// The plan for a region of `file_size` bytes, in a file that holds `file_len` bytes so far.
pub open spec fn plan_spec(
    file_size: int,
    file_len: int,
    min_workers: int,
    slab_size: int,
) -> Result<Plan, Error> {
    if min_workers == 0 {
        Err(Error::InvalidNumWorkers)
    } else if size_error(file_size, slab_size) is Some {
        Err(size_error(file_size, slab_size)->0)
    } else {
        match max_workers_spec(file_size, slab_size, min_workers) {
            None => Err(Error::InvalidFileSize),
            Some(limits) => if file_len != 0 {
                Err(Error::AlreadyInitialized)
            } else {
                Ok(
                    Plan {
                        num_workers: limits.max_workers,
                        layout: layout_spec(
                            limits.max_workers as int,
                            slab_size,
                            limits.usable_slabs,
                        ),
                    },
                )
            },
        }
    }
}

/// Why a region cannot be joined, if it cannot.
pub open spec fn join_error(mem: Seq<u8>) -> Option<Error> {
    let header = Header::of(mem);
    let slab_size = header.slab_size as int;
    if mem.len() < HEADER_SIZE {
        Some(Error::InvalidHeader)
    } else if header.version != VERSION {
        Some(Error::InvalidVersion { expected: VERSION, actual: header.version })
    } else if header.magic != MAGIC || header.num_workers == 0 {
        Some(Error::InvalidHeader)
    } else if size_error(mem.len() as int, slab_size) is Some {
        size_error(mem.len() as int, slab_size)
    } else {
        match max_workers_spec(mem.len() as int, slab_size, header.num_workers as int) {
            None => Some(Error::InvalidHeader),
            Some(limits) => if limits.max_workers != header.num_workers {
                Some(Error::InvalidHeader)
            } else if layout_of(header) != layout_spec(
                header.num_workers as int,
                slab_size,
                limits.usable_slabs,
            ) {
                Some(Error::InvalidHeader)
            } else {
                None
            },
        }
    }
}

/// The layout that a header records.
pub open spec fn layout_of(header: Header) -> AllocatorLayout {
    AllocatorLayout {
        num_slabs: header.num_slabs,
        free_list_elements_offset: header.free_list_elements_offset,
        slab_shared_meta_offset: header.slab_shared_meta_offset,
        slab_free_stacks_offset: header.slab_free_stacks_offset,
        slabs_offset: header.slabs_offset,
    }
}

/// The layout of a region as its handles remember it.
pub open spec fn cached(plan: Plan, slab_size: u32) -> CachedLayout {
    CachedLayout {
        num_slabs: plan.layout.num_slabs,
        num_workers: plan.num_workers,
        slab_size,
        free_list_elements_offset: plan.layout.free_list_elements_offset,
        slab_shared_meta_offset: plan.layout.slab_shared_meta_offset,
        slab_free_stacks_offset: plan.layout.slab_free_stacks_offset,
        slabs_offset: plan.layout.slabs_offset,
    }
}

/// The header records offsets in 32 bits: the slabs of the plan start where it can say so.
pub open spec fn offsets_fit(file_size: int, slab_size: int, min_workers: int) -> bool {
    max_workers_spec(file_size, slab_size, min_workers) matches Some(limits) ==> slabs_at(
        limits.max_workers as int,
        slab_size,
        limits.usable_slabs as int,
    ) <= u32::MAX
}

/// Checks a slab size.
fn verify_slab_size(slab_size: u32) -> (result: Result<(), Error>)
    ensures
        result == if valid_slab_size(slab_size as int) {
            Ok::<(), Error>(())
        } else {
            Err(Error::InvalidSlabSize)
        },
{
    if !is_power_of_two(slab_size) {
        return Err(Error::InvalidSlabSize);
    }
    // If the slab size is not large enough to hold at least 4 allocations,
    // then there's really no point to having a slab allocator.
    if slab_size < 4 * MAX_SIZE {
        return Err(Error::InvalidSlabSize);
    }
    if slab_size / MIN_SIZE > u16::MAX as u32 {
        return Err(Error::InvalidSlabSize);
    }
    Ok(())
}

/// Checks the number of slabs.
fn verify_total_slabs(file_size: usize, slab_size: u32) -> (result: Result<(), Error>)
    requires
        slab_size > 0,
    ensures
        result == if file_size as int / slab_size as int <= u32::MAX {
            Ok::<(), Error>(())
        } else {
            Err(Error::InvalidFileSize)
        },
{
    if file_size / slab_size as usize > u32::MAX as usize {
        return Err(Error::InvalidFileSize);
    }
    Ok(())
}

/// The metadata of any number of slabs that a region spans fits in its address space, with
/// all the workers for which there is room.
proof fn lemma_layout_fits(file_size: int, slab_size: int, min_workers: int)
    requires
        0 <= file_size <= isize::MAX,
        valid_slab_size(slab_size),
        file_size / slab_size <= u32::MAX,
    ensures
        layout_fits(0, slab_size, file_size / slab_size),
        max_workers_spec(file_size, slab_size, min_workers) matches Some(l) ==> layout_fits(
            l.max_workers as int,
            slab_size,
            l.usable_slabs as int,
        ),
{
    let total = file_size / slab_size;
    lemma_div_pos_is_pos(file_size, slab_size);
    lemma_fundamental_div_mod(file_size, slab_size);
    lemma_mul_is_commutative(slab_size, total);
    crate::header::layout::lemma_stacks_end_bound(slab_size, total);
    if let Some(l) = max_workers_spec(file_size, slab_size, min_workers) {
        crate::header::layout::lemma_granted(total, slab_size, min_workers);
        crate::header::layout::lemma_stacks_end_bound(slab_size, l.usable_slabs as int);
        lemma_mul_inequality(l.usable_slabs as int, total, slab_size);
    }
}

/// Decides how a region of `file_size` bytes is laid out, in a file that holds `file_len`
/// bytes so far, and with at least `min_workers` workers.
pub fn plan(file_size: usize, file_len: u64, min_workers: u32, slab_size: u32) -> (plan: Result<
    Plan,
    Error,
>)
    requires
        file_size <= isize::MAX,
    ensures
        plan == plan_spec(
            file_size as int,
            file_len as int,
            min_workers as int,
            slab_size as int,
        ),
{
    if min_workers == 0 {
        return Err(Error::InvalidNumWorkers);
    }
    match verify_slab_size(slab_size) {
        Ok(()) => (),
        Err(error) => {
            return Err(error);
        },
    }
    match verify_total_slabs(file_size, slab_size) {
        Ok(()) => (),
        Err(error) => {
            return Err(error);
        },
    }
    proof {
        lemma_div_pos_is_pos(file_size as int, slab_size as int);
        lemma_layout_fits(file_size as int, slab_size as int, min_workers as int);
        crate::header::layout::law_limits_fit(
            file_size as int,
            slab_size as int,
            min_workers as int,
        );
    }
    let limits = match max_workers(file_size, slab_size, min_workers) {
        None => {
            return Err(Error::InvalidFileSize);
        },
        Some(limits) => limits,
    };
    // Given parameters, calculate layout.
    let num_workers = limits.max_workers;
    let layout = layout_for_num_slabs(num_workers, slab_size, limits.usable_slabs);
    if layout.num_slabs == 0 {
        return Err(Error::InvalidFileSize);
    }
    if file_len != 0 {
        return Err(Error::AlreadyInitialized);
    }
    Ok(Plan { num_workers, layout })
}

/// Whether the header of a region that can be planned is able to record its offsets.
pub fn can_record(file_size: usize, min_workers: u32, slab_size: u32) -> (fit: bool)
    requires
        file_size <= isize::MAX,
        size_error(file_size as int, slab_size as int) is None,
    ensures
        fit == offsets_fit(file_size as int, slab_size as int, min_workers as int),
{
    proof {
        lemma_div_pos_is_pos(file_size as int, slab_size as int);
        lemma_layout_fits(file_size as int, slab_size as int, min_workers as int);
    }
    match max_workers(file_size, slab_size, min_workers) {
        None => true,
        Some(limits) => slabs_start(limits.max_workers, slab_size, limits.usable_slabs)
            <= u32::MAX as usize,
    }
}

/// The parts of a planned region come one after another and fit in it.
pub proof fn law_plan_fits(file_size: int, min_workers: int, slab_size: u32)
    requires
        0 <= file_size <= isize::MAX,
        0 <= min_workers,
        plan_spec(file_size, 0, min_workers, slab_size as int) is Ok,
        offsets_fit(file_size, slab_size as int, min_workers),
    ensures
        ({
            let plan = plan_spec(file_size, 0, min_workers, slab_size as int)->Ok_0;
            let l = cached(plan, slab_size);
            &&& l.wf()
            &&& l.fits(file_size)
            &&& l.num_workers >= min_workers
            &&& l.slab_size == slab_size
        }),
{
    let ss = slab_size as int;
    let limits = max_workers_spec(file_size, ss, min_workers)->0;
    let nw = limits.max_workers as int;
    let ns = limits.usable_slabs as int;
    crate::header::layout::law_limits_fit(file_size, ss, min_workers);
    crate::header::layout::law_layout_ordered(nw, ss, ns);
    crate::header::layout::lemma_fewer_workers(nw, ss, ns);
    lemma_mul_is_commutative(crate::header::layout::free_stack_bytes(ss), ns);
}

/// When a region can be planned, and what is wrong where it cannot: first the number of workers,
/// then the slab size, which is a power of two from 16 KiB to 8 MiB, then the size of the region,
/// and at last that the file holds something already.
pub proof fn law_plan_outcome(file_size: int, file_len: int, min_workers: int, slab_size: int)
    requires
        0 <= file_size <= isize::MAX,
        0 <= slab_size <= u32::MAX,
    ensures
        ({
            let plan = plan_spec(file_size, file_len, min_workers, slab_size);
            let sized = slab_size == 16384 || slab_size == 32768 || slab_size == 65536 || slab_size == 131072
                || slab_size == 262144 || slab_size == 524288 || slab_size == 1048576 || slab_size
                == 2097152 || slab_size == 4194304 || slab_size == 8388608;
            let divided = file_size / slab_size <= u32::MAX && max_workers_spec(
                file_size,
                slab_size,
                min_workers,
            ) is Some;
            &&& plan == Err::<Plan, Error>(Error::InvalidNumWorkers) <==> min_workers == 0
            &&& plan == Err::<Plan, Error>(Error::InvalidSlabSize) <==> min_workers != 0 && !sized
            &&& plan == Err::<Plan, Error>(Error::InvalidFileSize) <==> min_workers != 0 && sized
                && !divided
            &&& plan == Err::<Plan, Error>(Error::AlreadyInitialized) <==> min_workers != 0 && sized
                && divided && file_len != 0
            &&& plan is Ok <==> min_workers != 0 && sized && divided && file_len == 0
        }),
{
    crate::region::law_slab_sizes(slab_size);
}

/// How a region with slabs of a valid size is divided.
proof fn lemma_plan_division(file_size: int, min_workers: int, slab_size: int)
    requires
        0 <= file_size <= isize::MAX,
        file_size <= 0x40_0000_0000 || min_workers <= 0x2000_0000,
        0 < min_workers,
        valid_slab_size(slab_size),
        16384 <= slab_size <= 8388608,
        slab_size / 256 <= u16::MAX,
        slabs_at(0, slab_size, file_size / slab_size) <= u32::MAX,
        offsets_fit(file_size, slab_size, min_workers),
    ensures
        ({
            let total = file_size / slab_size;
            match plan_spec(file_size, 0, min_workers, slab_size) {
                Ok(plan) => {
                    let layout = plan.layout;
                    let meta = total - layout.num_slabs;
                    let stacks = layout.slab_free_stacks_offset;
                    &&& suffices(total, slab_size, min_workers, meta)
                    &&& forall|m: int|
                        m < meta ==> !#[trigger] suffices(total, slab_size, min_workers, m)
                    &&& plan.num_workers == (meta * slab_size - slabs_at(
                        0,
                        slab_size,
                        layout.num_slabs as int,
                    )) / 64
                    &&& plan.num_workers >= min_workers
                    &&& layout.free_list_elements_offset == 128 + 64 * plan.num_workers
                    &&& layout.slab_shared_meta_offset % 64 == 0
                    &&& 128 + 64 * plan.num_workers + 12 * layout.num_slabs
                        <= layout.slab_shared_meta_offset < 192 + 64 * plan.num_workers + 12
                        * layout.num_slabs
                    &&& stacks == layout.slab_shared_meta_offset + 128 * layout.num_slabs
                    &&& layout.slabs_offset as int % slab_size == 0
                    &&& stacks + (4 + 2 * (slab_size / 256)) * layout.num_slabs
                        <= layout.slabs_offset < stacks + (4 + 2 * (slab_size / 256))
                        * layout.num_slabs + slab_size
                    &&& layout.slabs_offset + layout.num_slabs * slab_size <= file_size
                },
                Err(_) => total < 2 || slabs_at(min_workers, slab_size, total - 1) / slab_size + 1
                    >= total,
            }
        }),
{
    let total = file_size / slab_size;
    lemma_div_pos_is_pos(file_size, slab_size);
    crate::header::layout::law_layout_tight(0, slab_size, total);
    lemma_mul_nonnegative(4 + 2 * (slab_size / 256), total);
    crate::header::layout::law_limits_least(file_size, slab_size, min_workers);
    crate::header::layout::law_limits_fit(file_size, slab_size, min_workers);
    if total >= 1 {
        crate::header::layout::law_limits_frugal(file_size, slab_size, min_workers);
    }
    if let Some(limits) = max_workers_spec(file_size, slab_size, min_workers) {
        crate::header::layout::law_layout_recorded(
            limits.max_workers as int,
            slab_size,
            limits.usable_slabs,
        );
        crate::header::layout::lemma_fewer_workers(
            limits.max_workers as int,
            slab_size,
            limits.usable_slabs as int,
        );
    }
}

/// A plan uses the whole region: as few slabs as suffice for metadata, all others for use, as
/// many workers as there is room for, and the parts one after another. A region is large enough
/// if it holds the metadata of all its slabs but one, and two slabs more.
pub proof fn law_plan_division(file_size: int, min_workers: int, slab_size: int)
    requires
        0 <= file_size <= isize::MAX,
        file_size <= 0x40_0000_0000 || min_workers <= 0x2000_0000,
        0 < min_workers,
        slab_size == 16384 || slab_size == 32768 || slab_size == 65536 || slab_size == 131072
            || slab_size == 262144 || slab_size == 524288 || slab_size == 1048576 || slab_size
            == 2097152 || slab_size == 4194304 || slab_size == 8388608,
        slabs_at(0, slab_size, file_size / slab_size) <= u32::MAX,
        offsets_fit(file_size, slab_size, min_workers),
    ensures
        ({
            let total = file_size / slab_size;
            match plan_spec(file_size, 0, min_workers, slab_size) {
                Ok(plan) => {
                    let layout = plan.layout;
                    let meta = total - layout.num_slabs;
                    let stacks = layout.slab_free_stacks_offset;
                    &&& suffices(total, slab_size, min_workers, meta)
                    &&& forall|m: int|
                        m < meta ==> !#[trigger] suffices(total, slab_size, min_workers, m)
                    &&& plan.num_workers == (meta * slab_size - slabs_at(
                        0,
                        slab_size,
                        layout.num_slabs as int,
                    )) / 64
                    &&& plan.num_workers >= min_workers
                    &&& layout.free_list_elements_offset == 128 + 64 * plan.num_workers
                    &&& layout.slab_shared_meta_offset % 64 == 0
                    &&& 128 + 64 * plan.num_workers + 12 * layout.num_slabs
                        <= layout.slab_shared_meta_offset < 192 + 64 * plan.num_workers + 12
                        * layout.num_slabs
                    &&& stacks == layout.slab_shared_meta_offset + 128 * layout.num_slabs
                    &&& layout.slabs_offset as int % slab_size == 0
                    &&& stacks + (4 + 2 * (slab_size / 256)) * layout.num_slabs
                        <= layout.slabs_offset < stacks + (4 + 2 * (slab_size / 256))
                        * layout.num_slabs + slab_size
                    &&& layout.slabs_offset + layout.num_slabs * slab_size <= file_size
                },
                Err(_) => total < 2 || slabs_at(min_workers, slab_size, total - 1) / slab_size + 1
                    >= total,
            }
        }),
{
    crate::region::law_slab_sizes(slab_size);
    lemma_plan_division(file_size, min_workers, slab_size);
}

/// What keeps a region from being joined: a header that is missing, of another version, without
/// the magic number or without workers; a slab size that is no power of two from 16 KiB to 8 MiB;
/// too many slabs; and a header that does not record what a region of that size, with these slabs
/// and workers, has.
pub proof fn law_join_outcome(mem: Seq<u8>)
    requires
        mem.len() <= isize::MAX,
    ensures
        ({
            let header = Header::of(mem);
            let slab_size = header.slab_size;
            let sized = slab_size == 16384 || slab_size == 32768 || slab_size == 65536 || slab_size == 131072
                || slab_size == 262144 || slab_size == 524288 || slab_size == 1048576 || slab_size
                == 2097152 || slab_size == 4194304 || slab_size == 8388608;
            let error = join_error(mem);
            if mem.len() < 128 {
                error == Some(Error::InvalidHeader)
            } else if header.version != VERSION {
                error == Some(
                    Error::InvalidVersion { expected: VERSION, actual: header.version },
                )
            } else if header.magic != MAGIC || header.num_workers == 0 {
                error == Some(Error::InvalidHeader)
            } else if !sized {
                error == Some(Error::InvalidSlabSize)
            } else if mem.len() as int / slab_size as int > u32::MAX {
                error == Some(Error::InvalidFileSize)
            } else {
                &&& error is None || error == Some(Error::InvalidHeader)
                &&& match max_workers_spec(
                    mem.len() as int,
                    slab_size as int,
                    header.num_workers as int,
                ) {
                    None => error is Some,
                    Some(limits) => {
                        let layout = layout_spec(
                            header.num_workers as int,
                            slab_size as int,
                            header.num_slabs,
                        );
                        error is None <==> {
                            &&& header.num_workers == limits.max_workers
                            &&& header.num_slabs == limits.usable_slabs
                            &&& header.free_list_elements_offset == layout.free_list_elements_offset
                            &&& header.slab_shared_meta_offset == layout.slab_shared_meta_offset
                            &&& header.slab_free_stacks_offset == layout.slab_free_stacks_offset
                            &&& header.slabs_offset == layout.slabs_offset
                        }
                    },
                }
            }
        }),
{
    let header = Header::of(mem);
    crate::region::law_slab_sizes(header.slab_size as int);
}

/// A region that can be joined is laid out soundly: its parts come one after another and fit in
/// it.
pub proof fn law_joined_is_sound(mem: Seq<u8>)
    requires
        128 <= mem.len() <= isize::MAX,
        join_error(mem) is None,
        offsets_fit(
            mem.len() as int,
            Header::of(mem).slab_size as int,
            Header::of(mem).num_workers as int,
        ),
    ensures
        ({
            let header = Header::of(mem);
            let slab_size = header.slab_size as int;
            &&& header.num_workers > 0
            &&& header.num_slabs > 0
            &&& 128 + 64 * header.num_workers <= header.free_list_elements_offset
            &&& header.free_list_elements_offset + 12 * header.num_slabs
                <= header.slab_shared_meta_offset
            &&& header.slab_shared_meta_offset + 128 * header.num_slabs
                <= header.slab_free_stacks_offset
            &&& header.slab_free_stacks_offset + (4 + 2 * (slab_size / 256)) * header.num_slabs
                <= header.slabs_offset
            &&& header.slabs_offset as int % slab_size == 0
            &&& header.slabs_offset + header.num_slabs * slab_size <= mem.len()
            &&& CachedLayout::of(header).wf()
            &&& CachedLayout::of(header).fits(mem.len() as int)
        }),
{
    let header = Header::of(mem);
    let slab_size = header.slab_size as int;
    let nw = header.num_workers as int;
    crate::region::law_slab_sizes(slab_size);
    let limits = max_workers_spec(mem.len() as int, slab_size, nw)->0;
    let ns = limits.usable_slabs as int;
    crate::header::layout::law_limits_fit(mem.len() as int, slab_size, nw);
    crate::header::layout::law_layout_recorded(nw, slab_size, limits.usable_slabs);
    crate::header::layout::lemma_fewer_workers(nw, slab_size, ns);
    crate::header::layout::law_layout_ordered(nw, slab_size, ns);
    lemma_mul_is_commutative(crate::header::layout::free_stack_bytes(slab_size), ns);
    assert(layout_of(header) == layout_spec(nw, slab_size, limits.usable_slabs));
}

/// Regions of up to four gigabytes are never too large for their header.
pub proof fn law_small_regions_record(file_size: int, min_workers: int, slab_size: int)
    requires
        0 <= file_size <= u32::MAX,
        valid_slab_size(slab_size),
    ensures
        offsets_fit(file_size, slab_size, min_workers),
{
    let total = file_size / slab_size;
    lemma_div_pos_is_pos(file_size, slab_size);
    lemma_div_nonincreasing(file_size, slab_size);
    lemma_fundamental_div_mod(file_size, slab_size);
    lemma_mul_is_commutative(slab_size, total);
    if let Some(limits) = max_workers_spec(file_size, slab_size, min_workers) {
        let usable = limits.usable_slabs as int;
        crate::header::layout::lemma_granted(total, slab_size, min_workers);
        crate::header::layout::lemma_stacks_end_bound(slab_size, usable);
        lemma_mul_inequality(usable, total, slab_size);
        crate::align::lemma_round_up(
            crate::header::layout::stacks_end(0, slab_size, usable),
            slab_size,
        );
        crate::header::layout::law_limits_fit(file_size, slab_size, min_workers);
    }
}

/// Create and initialize a region, whose bytes are those of a file that was just extended to
/// that size, in place of the `file_len` bytes that it held before.
/// `min_workers` is the minimum number of workers to support.
pub fn create(mem: &mut [u8], file_len: u64, min_workers: u32, slab_size: u32) -> (result: Result<
    (),
    Error,
>)
    requires
        old(mem)@.len() <= isize::MAX,
        offsets_fit(old(mem)@.len() as int, slab_size as int, min_workers as int),
        forall|i: int| 0 <= i < old(mem)@.len() ==> #[trigger] old(mem)@[i] == 0,
    ensures
        final(mem)@.len() == old(mem)@.len(),
        match plan_spec(
            old(mem)@.len() as int,
            file_len as int,
            min_workers as int,
            slab_size as int,
        ) {
            Err(error) => result == Err::<(), Error>(error) && final(mem)@ == old(mem)@,
            Ok(plan) => {
                &&& result is Ok
                &&& initialize::is_fresh(final(mem)@, cached(plan, slab_size))
                &&& join_error(final(mem)@) is None
                &&& agree(
                    old(mem)@,
                    final(mem)@,
                    plan.layout.slabs_offset as int,
                    old(mem)@.len() as int,
                )
            },
        },
{
    let plan = match plan(mem.len(), file_len, min_workers, slab_size) {
        Ok(plan) => plan,
        Err(error) => {
            return Err(error);
        },
    };
    proof {
        law_plan_fits(mem@.len() as int, min_workers as int, slab_size);
        crate::header::layout::law_limits_stable(
            mem@.len() as int,
            slab_size as int,
            min_workers as int,
            plan.num_workers as int,
        );
    }
    // Initialize the header and what follows it.
    initialize::allocator(mem, slab_size, plan.num_workers, plan.layout);
    Ok(())
}

/// Checks that a region can be joined.
pub fn join(mem: &[u8]) -> (result: Result<(), Error>)
    requires
        mem@.len() <= isize::MAX,
    ensures
        result == match join_error(mem@) {
            Some(error) => Err::<(), Error>(error),
            None => Ok(()),
        },
{
    if mem.len() < HEADER_SIZE {
        return Err(Error::InvalidHeader);
    }
    join_inner(mem)
}

fn join_inner(mem: &[u8]) -> (result: Result<(), Error>)
    requires
        HEADER_SIZE <= mem@.len() <= isize::MAX,
    ensures
        result == match join_error(mem@) {
            Some(error) => Err::<(), Error>(error),
            None => Ok(()),
        },
{
    let file_size = mem.len();
    let header = Header::read(mem);
    // Verify header
    let actual_version = header.version;
    if actual_version != VERSION {
        return Err(Error::InvalidVersion { expected: VERSION, actual: actual_version });
    }
    if header.magic != MAGIC || header.num_workers == 0 {
        return Err(Error::InvalidHeader);
    }
    match verify_slab_size(header.slab_size) {
        Ok(()) => (),
        Err(error) => {
            return Err(error);
        },
    }
    match verify_total_slabs(file_size, header.slab_size) {
        Ok(()) => (),
        Err(error) => {
            return Err(error);
        },
    }
    proof {
        lemma_div_pos_is_pos(file_size as int, header.slab_size as int);
        lemma_layout_fits(
            file_size as int,
            header.slab_size as int,
            header.num_workers as int,
        );
    }
    let limits = match max_workers(file_size, header.slab_size, header.num_workers) {
        None => {
            return Err(Error::InvalidHeader);
        },
        Some(limits) => limits,
    };
    if limits.max_workers != header.num_workers {
        return Err(Error::InvalidHeader);
    }
    let expected_layout = layout_for_num_slabs(
        header.num_workers,
        header.slab_size,
        limits.usable_slabs,
    );
    if header.num_slabs != expected_layout.num_slabs || header.free_list_elements_offset
        != expected_layout.free_list_elements_offset || header.slab_shared_meta_offset
        != expected_layout.slab_shared_meta_offset || header.slab_free_stacks_offset
        != expected_layout.slab_free_stacks_offset || header.slabs_offset
        != expected_layout.slabs_offset {
        return Err(Error::InvalidHeader);
    }
    Ok(())
}

/// Whether a region can be joined depends on its size and its header alone. No operation of
/// a handle changes either, so a region that could be joined can still be.
pub proof fn law_join_stable(a: Seq<u8>, b: Seq<u8>)
    requires
        a.len() == b.len(),
        agree(a, b, 0, GLOBAL_HEAD as int),
    ensures
        join_error(b) == join_error(a),
{
    Header::lemma_same(a, b);
}

/// The offsets of a region fit in its header exactly if there is no such region, or its slabs,
/// the last of its parts, start below 2^32.
pub proof fn law_offsets_fit(file_size: int, slab_size: int, min_workers: int)
    ensures
        offsets_fit(file_size, slab_size, min_workers) <==> match max_workers_spec(
            file_size,
            slab_size,
            min_workers,
        ) {
            None => true,
            Some(limits) => slabs_at(
                limits.max_workers as int,
                slab_size,
                limits.usable_slabs as int,
            ) < 0x1_0000_0000,
        },
{
}

} // verus!
