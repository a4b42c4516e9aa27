use rts_alloc::allocator::{Allocator, FreeOnlyAllocator};
use rts_alloc::index::NULL_U64;
use rts_alloc::memory::load_u64;

const ADDRESS: usize = 0x30_0000;

fn create() -> (Vec<u8>, Allocator) {
    let mut mem = vec![0u8; 4 * 1024 * 1024];
    let allocator = Allocator::create(&mut mem, ADDRESS, 0, 4, 65536).unwrap();
    (mem, allocator)
}

fn queued(mem: &[u8], allocator: &Allocator) -> Vec<usize> {
    let mut offsets = Vec::new();
    let mut offset = load_u64(mem, allocator.worker_meta().remote_free_head);
    while offset != NULL_U64 {
        offsets.push(offset as usize);
        offset = load_u64(mem, offset as usize);
    }
    offsets
}

#[test]
fn batch_publishes_on_flush() {
    let (mut mem, owner) = create();
    let other = Allocator::join_from_existing(&mut mem, &owner).unwrap();
    let ptrs: Vec<usize> = (0..3)
        .map(|_| owner.allocate(&mut mem, 1000).unwrap())
        .collect();
    let offsets: Vec<usize> = ptrs.iter().map(|ptr| owner.offset(*ptr)).collect();
    let mut batch = other.remote_free_batch();
    for ptr in &ptrs {
        batch.free(&mut mem, *ptr);
    }
    // Nothing is published yet.
    assert_eq!(queued(&mem, &owner), Vec::<usize>::new());
    batch.flush(&mut mem);
    assert_eq!(queued(&mem, &owner), vec![offsets[2], offsets[1], offsets[0]]);
    assert_eq!(owner.outstanding_allocation_bytes(&mem), 3 * 1024);
    owner.clean_remote_frees(&mut mem);
    assert_eq!(owner.outstanding_allocation_bytes(&mem), 0);
}

#[test]
fn batch_reclaims_local_frees_at_once() {
    let (mut mem, owner) = create();
    let keep = owner.allocate(&mut mem, 300).unwrap();
    let gone = owner.allocate(&mut mem, 300).unwrap();
    let mut batch = owner.remote_free_batch();
    batch.free(&mut mem, gone);
    assert_eq!(batch.chains.len(), 0);
    assert_eq!(owner.outstanding_allocation_bytes(&mem), 512);
    assert_eq!(owner.allocate(&mut mem, 300), Some(gone));
    owner.free(&mut mem, keep);
}

#[test]
fn batch_groups_by_owner() {
    let (mut mem, first) = create();
    let second = Allocator::join_from_existing(&mut mem, &first).unwrap();
    let free_only = FreeOnlyAllocator::join_from_existing(&first);
    let a: Vec<usize> = (0..2)
        .map(|_| first.allocate(&mut mem, 256).unwrap() - ADDRESS)
        .collect();
    let b: Vec<usize> = (0..2)
        .map(|_| second.allocate(&mut mem, 4096).unwrap() - ADDRESS)
        .collect();
    let mut batch = free_only.remote_free_batch();
    batch.free_offset(&mut mem, a[0]);
    batch.free_offset(&mut mem, b[0]);
    batch.free_offset(&mut mem, a[1]);
    batch.free_offset(&mut mem, b[1]);
    assert_eq!(batch.chains.len(), 2);
    batch.flush(&mut mem);
    assert_eq!(batch.chains.len(), 0);
    assert_eq!(queued(&mem, &first), vec![a[1], a[0]]);
    assert_eq!(queued(&mem, &second), vec![b[1], b[0]]);
    // The batch may be reused.
    let c = first.allocate(&mut mem, 256).unwrap() - ADDRESS;
    batch.free_offset(&mut mem, c);
    batch.flush(&mut mem);
    assert_eq!(queued(&mem, &first), vec![c, a[1], a[0]]);
}

#[test]
fn batched_frees_leave_what_single_frees_leave() {
    let (mut mem, owner) = create();
    let free_only = FreeOnlyAllocator::join_from_existing(&owner);
    let offsets: Vec<usize> = (0..5)
        .map(|_| owner.allocate(&mut mem, 2048).unwrap() - ADDRESS)
        .collect();
    let mut single = mem.clone();
    for offset in &offsets {
        free_only.free_offset(&mut single, *offset);
    }
    let mut batch = free_only.remote_free_batch();
    for offset in &offsets {
        batch.free_offset(&mut mem, *offset);
    }
    batch.flush(&mut mem);
    assert_eq!(queued(&mem, &owner), queued(&single, &owner));
    owner.clean_remote_frees(&mut mem);
    owner.clean_remote_frees(&mut single);
    assert_eq!(owner.outstanding_allocation_bytes(&mem), 0);
    assert_eq!(mem, single);
}

#[test]
fn other_work_does_not_disturb_a_batch() {
    let (mut mem, owner) = create();
    let other = Allocator::join_from_existing(&mut mem, &owner).unwrap();
    let held = owner.allocate(&mut mem, 512).unwrap() - ADDRESS;
    let mut batch = other.remote_free_batch();
    batch.free_offset(&mut mem, held);
    let busy = owner.allocate(&mut mem, 512).unwrap();
    mem[busy - ADDRESS..busy - ADDRESS + 512].fill(0xEE);
    owner.free(&mut mem, busy);
    batch.flush(&mut mem);
    assert_eq!(queued(&mem, &owner), vec![held]);
}
