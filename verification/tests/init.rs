use rts_alloc::allocator::{Allocator, FreeOnlyAllocator};
use rts_alloc::error::Error;
use rts_alloc::header::layout::{layout_for_num_slabs, max_workers, AllocatorLayout, WorkerLimits};
use rts_alloc::header::{Header, MAGIC, VERSION};
use rts_alloc::init::{can_record, join, plan};
use rts_alloc::memory::{store_u32, store_u64};

const SIZE: usize = 4 * 1024 * 1024;
const SLAB_SIZE: u32 = 65536;
const ADDRESS: usize = 0x40_0000;

fn create() -> (Vec<u8>, Allocator) {
    let mut mem = vec![0u8; SIZE];
    let allocator = Allocator::create(&mut mem, ADDRESS, 0, 4, SLAB_SIZE).unwrap();
    (mem, allocator)
}

#[test]
fn limits_fill_the_slabs_set_aside() {
    let limits = max_workers(SIZE, SLAB_SIZE, 4).unwrap();
    // Of 64 slabs, the metadata of 63 fills the first up to the last byte when it is rounded to
    // whole slabs. So a second one is set aside, which has room for 1024 workers.
    let base = layout_for_num_slabs(0, SLAB_SIZE, 63);
    assert_eq!(
        base,
        AllocatorLayout {
            num_slabs: 63,
            free_list_elements_offset: 128,
            slab_shared_meta_offset: 896,
            slab_free_stacks_offset: 8960,
            slabs_offset: 65536,
        }
    );
    assert_eq!(
        limits,
        WorkerLimits { meta_slabs: 2, usable_slabs: 62, max_workers: 1024 }
    );
    assert_eq!(max_workers(SIZE, SLAB_SIZE, limits.max_workers), Some(limits));
    assert_eq!(max_workers(SIZE, SLAB_SIZE, 500), Some(limits));
    assert_ne!(max_workers(SIZE, SLAB_SIZE, limits.max_workers + 1), Some(limits));
    assert_eq!(max_workers(SIZE, 0, 1), None);
    assert_eq!(max_workers(SLAB_SIZE as usize, SLAB_SIZE, 1), None);
}

#[test]
fn plan_reports_each_error() {
    assert!(matches!(plan(SIZE, 0, 0, SLAB_SIZE), Err(Error::InvalidNumWorkers)));
    assert!(matches!(plan(SIZE, 0, 4, 65535), Err(Error::InvalidSlabSize)));
    assert!(matches!(plan(SIZE, 0, 4, 8192), Err(Error::InvalidSlabSize)));
    assert!(matches!(plan(SIZE, 0, 4, 1 << 24), Err(Error::InvalidSlabSize)));
    assert!(matches!(plan(isize::MAX as usize, 0, 4, 16384), Err(Error::InvalidFileSize)));
    assert!(matches!(plan(100, 0, 4, SLAB_SIZE), Err(Error::InvalidFileSize)));
    assert!(matches!(plan(SIZE, 0, u32::MAX, SLAB_SIZE), Err(Error::InvalidFileSize)));
    assert!(matches!(plan(SIZE, 1, 4, SLAB_SIZE), Err(Error::AlreadyInitialized)));
    // The parameters are checked before the file.
    assert!(matches!(plan(SIZE, 1, 0, SLAB_SIZE), Err(Error::InvalidNumWorkers)));
}

#[test]
fn create_leaves_a_region_alone_that_it_rejects() {
    let mut mem = vec![0u8; SIZE];
    assert!(matches!(
        Allocator::create(&mut mem, ADDRESS, 5, 4, SLAB_SIZE),
        Err(Error::AlreadyInitialized)
    ));
    assert!(mem.iter().all(|byte| *byte == 0));
}

#[test]
fn created_header_is_the_plan() {
    let (mem, allocator) = create();
    let planned = plan(SIZE, 0, 4, SLAB_SIZE).unwrap();
    let header = Header::read(&mem);
    assert_eq!(header.magic, MAGIC);
    assert_eq!(header.version, VERSION);
    assert_eq!(header.num_workers, planned.num_workers);
    assert_eq!(
        planned.layout,
        AllocatorLayout {
            num_slabs: header.num_slabs,
            free_list_elements_offset: header.free_list_elements_offset,
            slab_shared_meta_offset: header.slab_shared_meta_offset,
            slab_free_stacks_offset: header.slab_free_stacks_offset,
            slabs_offset: header.slabs_offset,
        }
    );
    assert_eq!(allocator.worker_index, 0);
    assert_eq!(allocator.base.layout.num_slabs, 62);
    assert_eq!(allocator.base.layout.slabs_offset, 131072);
}

#[test]
fn join_accepts_what_create_made() {
    let (mut mem, first) = create();
    assert!(join(&mem).is_ok());
    let ptr = first.allocate(&mut mem, 100).unwrap();
    assert!(join(&mem).is_ok());
    let second = Allocator::join(&mut mem, ADDRESS).unwrap();
    assert_eq!(second.base, first.base);
    assert_eq!(second.worker_index, 1);
    second.free(&mut mem, ptr);
    first.clean_remote_frees(&mut mem);
    assert_eq!(first.outstanding_allocation_bytes(&mem), 0);
}

#[test]
fn join_reports_each_error() {
    assert!(matches!(join(&[0u8; 127]), Err(Error::InvalidHeader)));
    let (mem, _) = create();
    let with = |offset: usize, value: u32| {
        let mut copy = mem.clone();
        store_u32(&mut copy, offset, value);
        join(&copy)
    };
    assert!(matches!(
        with(8, 7),
        Err(Error::InvalidVersion { expected: VERSION, actual: 7 })
    ));
    // The number of workers.
    assert!(matches!(with(12, 0), Err(Error::InvalidHeader)));
    assert!(matches!(with(12, 1), Err(Error::InvalidHeader)));
    assert!(matches!(with(12, u32::MAX), Err(Error::InvalidHeader)));
    // The number of slabs.
    assert!(matches!(with(16, 63), Err(Error::InvalidHeader)));
    // The size of the slabs.
    assert!(matches!(with(20, 65537), Err(Error::InvalidSlabSize)));
    assert!(matches!(with(20, 32768), Err(Error::InvalidHeader)));
    // The offsets.
    for offset in [24, 28, 32, 36] {
        assert!(matches!(with(offset, 8), Err(Error::InvalidHeader)));
    }
    let mut copy = mem.clone();
    store_u64(&mut copy, 0, MAGIC + 1);
    assert!(matches!(join(&copy), Err(Error::InvalidHeader)));
    assert!(matches!(
        FreeOnlyAllocator::join(&copy, ADDRESS),
        Err(Error::InvalidHeader)
    ));
    assert!(matches!(
        Allocator::join(&mut copy, ADDRESS),
        Err(Error::InvalidHeader)
    ));
}

#[test]
fn workers_run_out_and_come_back() {
    let (mut mem, first) = create();
    let mut others = Vec::new();
    for expected in 1..first.base.layout.num_workers {
        let other = Allocator::join_from_existing(&mut mem, &first).unwrap();
        assert_eq!(other.worker_index, expected);
        others.push(other);
    }
    assert!(matches!(
        Allocator::join_from_existing(&mut mem, &first),
        Err(Error::NoAvailableWorkers)
    ));
    others.remove(4).release_worker(&mut mem);
    others.remove(1).release_worker(&mut mem);
    assert_eq!(
        Allocator::join_from_existing(&mut mem, &first).unwrap().worker_index,
        2
    );
    assert_eq!(
        Allocator::join_from_existing(&mut mem, &first).unwrap().worker_index,
        5
    );
}

#[test]
fn offsets_must_fit_in_the_header() {
    assert!(can_record(SIZE, 4, SLAB_SIZE));
    assert!(can_record(u32::MAX as usize, 1_000_000, SLAB_SIZE));
    assert!(!can_record(1 << 40, 4, SLAB_SIZE));
}
