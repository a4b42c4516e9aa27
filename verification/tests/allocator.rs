use rts_alloc::allocator::{Allocator, FreeOnlyAllocator};
use rts_alloc::index::NULL_U64;
use rts_alloc::memory::load_u64;
use rts_alloc::size_classes::{
    size_class, size_class_index, MAX_SIZE, NUM_SIZE_CLASSES, SIZE_CLASSES,
};

const TEST_BUFFER_SIZE: usize = 64 * 1024 * 1024; // 64 MiB

/// Where the tests pretend that the region is mapped.
const ADDRESS: usize = 0x10_0000;

fn initialize_for_test(slab_size: u32, num_workers: u32) -> (Vec<u8>, Allocator) {
    let mut mem = vec![0u8; TEST_BUFFER_SIZE];
    let allocator = Allocator::create(&mut mem, ADDRESS, 0, num_workers, slab_size).unwrap();
    (mem, allocator)
}

fn remote_free_stack(mem: &[u8], allocator: &Allocator) -> Vec<usize> {
    let mut free_offsets = Vec::new();
    let mut offset = load_u64(mem, allocator.worker_meta().remote_free_head);
    while offset != NULL_U64 {
        free_offsets.push(offset as usize);
        offset = load_u64(mem, offset as usize);
    }
    free_offsets
}

#[test]
fn test_allocator() {
    let slab_size = 65536; // 64 KiB
    let num_workers = 4;
    let (mut mem, allocator) = initialize_for_test(slab_size, num_workers);
    assert_eq!(allocator.outstanding_allocation_bytes(&mem), 0);

    let mut allocations = vec![];
    let mut total_allocated_bytes = 0u64;

    assert!(allocator.allocate(&mut mem, 0).is_none());
    for class_size in SIZE_CLASSES[..NUM_SIZE_CLASSES - 1].iter() {
        for size in [class_size - 1, *class_size, class_size + 1] {
            allocations.push(allocator.allocate(&mut mem, size).unwrap());
            total_allocated_bytes += size_class_index(size)
                .map(|i| size_class(i) as u64)
                .unwrap();
        }
    }
    for size in [MAX_SIZE - 1, MAX_SIZE] {
        allocations.push(allocator.allocate(&mut mem, size).unwrap());
        total_allocated_bytes += size_class_index(size)
            .map(|i| size_class(i) as u64)
            .unwrap();
    }
    assert_eq!(
        allocator.outstanding_allocation_bytes(&mem),
        total_allocated_bytes
    );
    assert!(allocator.allocate(&mut mem, MAX_SIZE + 1).is_none());

    // The worker should have local lists for all size classes.
    for size_index in 0..NUM_SIZE_CLASSES {
        let worker_local_list = allocator.worker_local_list_partial(size_index);
        assert!(worker_local_list.head(&mem).is_some());
    }

    for ptr in allocations {
        allocator.free(&mut mem, ptr);
    }
    assert_eq!(allocator.outstanding_allocation_bytes(&mem), 0);

    // The worker local lists should be empty after freeing.
    for size_index in 0..NUM_SIZE_CLASSES {
        let worker_local_list = allocator.worker_local_list_partial(size_index);
        assert_eq!(worker_local_list.head(&mem), None);
    }
}

fn check_worker_list_expectations(
    mem: &[u8],
    allocator: &Allocator,
    size_index: usize,
    expect_partial: bool,
    expect_full: bool,
) {
    let partial_list = allocator.worker_local_list_partial(size_index);
    assert_eq!(
        partial_list.head(mem).is_some(),
        expect_partial,
        "{:?}",
        partial_list.head(mem)
    );

    let full_list = allocator.worker_local_list_full(size_index);
    assert_eq!(
        full_list.head(mem).is_some(),
        expect_full,
        "{:?}",
        full_list.head(mem)
    );
}

#[test]
fn test_slab_list_transitions() {
    let slab_size = 65536; // 64 KiB
    let num_workers = 4;
    let (mut mem, allocator) = initialize_for_test(slab_size, num_workers);

    let allocation_size = 2048;
    let size_index = size_class_index(allocation_size).unwrap();
    let allocations_per_slab = slab_size / allocation_size;

    // The parital list and full list should begin empty.
    check_worker_list_expectations(&mem, &allocator, size_index, false, false);

    let mut first_slab_allocations = vec![];
    for _ in 0..allocations_per_slab - 1 {
        first_slab_allocations.push(allocator.allocate(&mut mem, allocation_size).unwrap());
    }

    // The first slab should be partially full and the full list empty.
    check_worker_list_expectations(&mem, &allocator, size_index, true, false);

    // Allocate one more to fill the slab.
    first_slab_allocations.push(allocator.allocate(&mut mem, allocation_size).unwrap());

    // The first slab should now be full and moved to the full list.
    check_worker_list_expectations(&mem, &allocator, size_index, false, true);

    // Allocating again will give a new slab, which will be partially full.
    let second_slab_allocation = allocator.allocate(&mut mem, allocation_size).unwrap();

    // The second slab should be partially full and the first slab in the full list.
    check_worker_list_expectations(&mem, &allocator, size_index, true, true);

    let mut first_slab_allocations = first_slab_allocations.drain(..);
    allocator.free(&mut mem, first_slab_allocations.next().unwrap());
    // Both slabs should be partially full, and none are full.
    check_worker_list_expectations(&mem, &allocator, size_index, true, false);

    // Free the first slab allocation.
    for ptr in first_slab_allocations {
        allocator.free(&mut mem, ptr);
    }
    // The first slab is now empty and should be moved to the global free list,
    // but the second slab is still partially full.
    check_worker_list_expectations(&mem, &allocator, size_index, true, false);

    // Free the second slab allocation.
    allocator.free(&mut mem, second_slab_allocation);
    // Both slabs should now be empty and moved to the global free list.
    check_worker_list_expectations(&mem, &allocator, size_index, false, false);
}

#[test]
fn test_out_of_slabs() {
    let slab_size = 65536; // 64 KiB
    let num_workers = 4;
    let (mut mem, allocator) = initialize_for_test(slab_size, num_workers);

    for index in 0..allocator.base.layout.num_slabs {
        let slab_index = allocator.take_slab(&mut mem, 0).unwrap();
        assert_eq!(slab_index, index);
    }
    // The next slab allocation should fail, as all slabs are taken.
    assert!(allocator.take_slab(&mut mem, 0).is_none());
}

#[test]
fn test_remote_free_lists() {
    let slab_size = 65536; // 64 KiB
    let num_workers = 4;
    let (mut mem, allocator_0) = initialize_for_test(slab_size, num_workers);
    let allocator_1 = Allocator::join(&mut mem, ADDRESS).unwrap();

    let allocation_size = 2048;
    let size_index = size_class_index(allocation_size).unwrap();
    let allocations_per_slab = slab_size / allocation_size;

    // Allocate enough to fill the first slab.
    let mut allocations = vec![];
    for _ in 0..allocations_per_slab {
        allocations.push(allocator_0.allocate(&mut mem, allocation_size).unwrap());
    }

    // The first slab should be full.
    let worker_local_list = allocator_0.worker_local_list_partial(size_index);
    assert!(worker_local_list.head(&mem).is_none());
    let worker_local_list = allocator_0.worker_local_list_full(size_index);
    assert!(worker_local_list.head(&mem).is_some());
    let slab_index = worker_local_list.head(&mem).unwrap();

    assert_eq!(remote_free_stack(&mem, &allocator_0), Vec::<usize>::new());

    // Free the allocations to the remote free stack.
    let mut allocation_offsets = Vec::new();
    for ptr in allocations {
        let offset = allocator_0.offset(ptr);
        allocation_offsets.push(offset);
        allocator_1.free_offset(&mut mem, offset);
    }
    assert_eq!(
        remote_free_stack(&mem, &allocator_0),
        allocation_offsets.iter().rev().copied().collect::<Vec<_>>()
    );
    assert_eq!(
        allocator_0.outstanding_allocation_bytes(&mem),
        allocations_per_slab as u64 * allocation_size as u64
    );

    // Allocator 0 can NOT allocate in the same slab.
    let different_slab_allocation = allocator_0.allocate(&mut mem, allocation_size).unwrap();
    let allocation_indexes = allocator_0
        .find_allocation_indexes(&mem, allocator_0.offset(different_slab_allocation));
    assert_ne!(allocation_indexes.slab_index, slab_index);
    allocator_0.free(&mut mem, different_slab_allocation);

    // If we clean the remote free lists, the next allocation should succeed in the same slab.
    allocator_0.clean_remote_frees(&mut mem);
    assert_eq!(remote_free_stack(&mem, &allocator_0), Vec::<usize>::new());
    assert_eq!(allocator_0.outstanding_allocation_bytes(&mem), 0);
    let same_slab_allocation = allocator_0.allocate(&mut mem, allocation_size).unwrap();
    let allocation_indexes =
        allocator_0.find_allocation_indexes(&mem, allocator_0.offset(same_slab_allocation));
    assert_eq!(allocation_indexes.slab_index, slab_index);
}

#[test]
fn test_join_from_existing_reuses_mapping() {
    let slab_size = 65536; // 64 KiB
    let num_workers = 4;
    let (mut mem, allocator_0) = initialize_for_test(slab_size, num_workers);

    let allocator_1 = Allocator::join_from_existing(&mut mem, &allocator_0).unwrap();
    assert_ne!(allocator_0.worker_index, allocator_1.worker_index);
    assert_eq!(allocator_0.base.header(), allocator_1.base.header());

    let free_only_allocator = FreeOnlyAllocator::join_from_existing(&allocator_0);
    assert_eq!(allocator_0.base.header(), free_only_allocator.base.header());
}

#[test]
fn test_drop_original_mapping_stays_alive() {
    let slab_size = 65536; // 64 KiB
    let num_workers = 4;
    let (mut mem, allocator_0) = initialize_for_test(slab_size, num_workers);

    // Join with a second allocator.
    let allocator_1 = Allocator::join_from_existing(&mut mem, &allocator_0).unwrap();

    // Drop the original.
    allocator_0.release_worker(&mut mem);

    // We can still allocate, read, and write through the shared mapping.
    let allocation_size = 2048;
    let allocation = allocator_1.allocate(&mut mem, allocation_size).unwrap();
    let offset = allocator_1.offset(allocation);
    mem[offset..offset + allocation_size as usize].fill(0xAB);
    assert_eq!(mem[offset], 0xAB);
    allocator_1.free(&mut mem, allocation);
}

#[test]
fn test_worker_reuse_with_free_only() {
    let slab_size = 65536; // 64 KiB
    let num_workers = 4;
    let (mut mem, allocator_0) = initialize_for_test(slab_size, num_workers);
    let num_workers = allocator_0.base.layout.num_workers;

    // Join with a free only allocator (doesn't consume a worker slot).
    let free_only_allocator = FreeOnlyAllocator::join_from_existing(&allocator_0);

    // Fill all worker slots.
    let mut allocators = Vec::new();
    for _ in 0..(num_workers - 1) {
        allocators.push(
            Allocator::join_from_existing_free_only(&mut mem, &free_only_allocator).unwrap(),
        );
    }
    assert!(Allocator::join_from_existing_free_only(&mut mem, &free_only_allocator).is_err());

    // Drop original and take its worker spot with a new allocator.
    allocator_0.release_worker(&mut mem);
    allocators
        .push(Allocator::join_from_existing_free_only(&mut mem, &free_only_allocator).unwrap());
    assert!(Allocator::join_from_existing_free_only(&mut mem, &free_only_allocator).is_err());

    // Drop all allocators.
    for allocator in allocators {
        allocator.release_worker(&mut mem);
    }

    // Re-fill all the allocators from our free only observer.
    let mut allocators = Vec::new();
    for _ in 0..num_workers {
        allocators.push(
            Allocator::join_from_existing_free_only(&mut mem, &free_only_allocator).unwrap(),
        );
    }
    assert!(Allocator::join_from_existing_free_only(&mut mem, &free_only_allocator).is_err());

    // Verify we can allocate, write, and read through a re-joined allocator.
    let allocation_size = 2048u32;
    let allocation = allocators[0].allocate(&mut mem, allocation_size).unwrap();
    let offset = allocators[0].offset(allocation);
    mem[offset..offset + allocation_size as usize].fill(0xCD);
    assert_eq!(mem[offset], 0xCD);
    allocators[0].free(&mut mem, allocation);
}

#[test]
fn test_free_only_allocator() {
    let slab_size = 65536; // 64 KiB
    let num_workers = 4;
    let (mut mem, allocator) = initialize_for_test(slab_size, num_workers);
    let free_only_allocator = FreeOnlyAllocator::join(&mem, ADDRESS).unwrap();

    let allocation_size = 2048;
    let allocation = allocator.allocate(&mut mem, allocation_size).unwrap();

    let offset = allocator.offset(allocation);
    free_only_allocator.free_offset(&mut mem, offset);

    assert_eq!(remote_free_stack(&mem, &allocator), vec![offset]);
}

#[test]
fn allocations_follow_each_other_and_the_last_freed_comes_first() {
    let (mut mem, allocator) = initialize_for_test(65536, 4);
    let slabs = ADDRESS + allocator.base.layout.slabs_offset as usize;
    let ptrs: Vec<usize> = (0..3)
        .map(|_| allocator.allocate(&mut mem, 300).unwrap())
        .collect();
    assert_eq!(ptrs, vec![slabs, slabs + 512, slabs + 1024]);
    allocator.free(&mut mem, ptrs[0]);
    allocator.free(&mut mem, ptrs[2]);
    assert_eq!(allocator.allocate(&mut mem, 512), Some(ptrs[2]));
    assert_eq!(allocator.allocate(&mut mem, 257), Some(ptrs[0]));
    // Freeing what was just allocated undoes the allocation.
    let before = mem.clone();
    let again = allocator.allocate(&mut mem, 300).unwrap();
    allocator.free(&mut mem, again);
    assert_eq!(mem, before);
}

#[test]
fn live_allocations_never_overlap() {
    let (mut mem, allocator) = initialize_for_test(16384, 2);
    let mut ranges = Vec::new();
    for i in 0..500u32 {
        let size = 1 + (i * 977) % MAX_SIZE;
        let ptr = allocator.allocate(&mut mem, size).unwrap();
        ranges.push((ptr, ptr + size_class(size_class_index(size).unwrap()) as usize));
    }
    ranges.sort();
    for pair in ranges.windows(2) {
        assert!(pair[0].1 <= pair[1].0);
    }
    assert!(ranges[0].0 >= ADDRESS + allocator.base.layout.slabs_offset as usize);
    assert!(ranges[499].1 <= ADDRESS + TEST_BUFFER_SIZE);
}

#[test]
fn contents_survive_other_work() {
    let (mut mem, owner) = initialize_for_test(65536, 4);
    let other = Allocator::join_from_existing(&mut mem, &owner).unwrap();
    let kept = owner.allocate(&mut mem, 256).unwrap() - ADDRESS;
    mem[kept..kept + 256].fill(0x5A);
    let ptrs: Vec<usize> = (0..600)
        .map(|_| owner.allocate(&mut mem, 256).unwrap())
        .collect();
    for (i, ptr) in ptrs.into_iter().enumerate() {
        if i % 2 == 0 {
            other.free(&mut mem, ptr);
        } else {
            owner.free(&mut mem, ptr);
        }
    }
    owner.clean_remote_frees(&mut mem);
    assert!(mem[kept..kept + 256].iter().all(|byte| *byte == 0x5A));
    assert_eq!(owner.outstanding_allocation_bytes(&mem), 256);
}

#[test]
fn a_released_worker_keeps_its_allocations() {
    let (mut mem, first) = initialize_for_test(65536, 4);
    let second = Allocator::join_from_existing(&mut mem, &first).unwrap();
    let ptr = first.allocate(&mut mem, 100).unwrap();
    first.release_worker(&mut mem);
    second.free(&mut mem, ptr);
    // Whoever takes the slot next reclaims it.
    let heir = Allocator::join_from_existing(&mut mem, &second).unwrap();
    assert_eq!(heir.worker_index, 0);
    assert_eq!(heir.outstanding_allocation_bytes(&mem), 256);
    heir.clean_remote_frees(&mut mem);
    assert_eq!(heir.outstanding_allocation_bytes(&mem), 0);
    assert_eq!(heir.allocate(&mut mem, 100), Some(ptr));
}

#[test]
fn exhausted_regions_refuse_and_recover() {
    let mut mem = vec![0u8; 16384 * 4];
    let allocator = Allocator::create(&mut mem, ADDRESS, 0, 1, 16384).unwrap();
    let slabs = allocator.base.layout.num_slabs as usize;
    let mut ptrs = Vec::new();
    while let Some(ptr) = allocator.allocate(&mut mem, MAX_SIZE) {
        ptrs.push(ptr);
    }
    assert_eq!(ptrs.len(), slabs * 4);
    assert!(allocator.allocate(&mut mem, 1).is_none());
    let freed = ptrs.pop().unwrap();
    allocator.free(&mut mem, freed);
    assert_eq!(allocator.allocate(&mut mem, MAX_SIZE), Some(freed));
}

#[test]
fn pointers_and_offsets_lead_to_each_other() {
    let (mut mem, allocator) = initialize_for_test(65536, 4);
    let ptr = allocator.allocate(&mut mem, 4096).unwrap();
    assert_eq!(allocator.ptr_from_offset(allocator.offset(ptr)), ptr);
    let free_only = FreeOnlyAllocator::join_from_existing(&allocator);
    assert_eq!(free_only.ptr_from_offset(free_only.offset(ptr)), ptr);
    let second = FreeOnlyAllocator::join_from_existing_free_only(&free_only);
    second.free(&mut mem, ptr);
    let indexes = second.find_allocation_indexes(&mem, second.offset(ptr));
    assert_eq!((indexes.slab_index, indexes.index_within_slab), (0, 0));
    let list = allocator.remote_free_list(&mem, 0);
    assert_eq!((list.slab_item_size, list.capacity), (4096, 16));
    assert_eq!(allocator.worker_local_list(4).iterate(&mem), vec![0]);
}

#[test]
fn the_list_of_a_slab_starts_empty() {
    let (mut mem, allocator) = initialize_for_test(65536, 4);
    for slab in 0..4 {
        let list = allocator.remote_free_list(&mem, slab);
        assert_eq!(list.iterate(&mem), Vec::<u16>::new());
    }
    let first = allocator.allocate(&mut mem, 256).unwrap();
    let second = allocator.allocate(&mut mem, 256).unwrap();
    let list = allocator.remote_free_list(&mem, 0);
    assert_eq!(list.iterate(&mem), Vec::<u16>::new());
    // A push concerns nothing but the list.
    list.push(&mut mem, 0);
    list.push(&mut mem, 1);
    assert_eq!(list.iterate(&mem), vec![1, 0]);
    assert_eq!(allocator.outstanding_allocation_bytes(&mem), 512);
    allocator.free(&mut mem, second);
    assert_eq!(allocator.allocate(&mut mem, 256), Some(second));
    assert_eq!(list.drain(&mut mem), vec![1, 0]);
    allocator.free(&mut mem, second);
    allocator.free(&mut mem, first);
    assert_eq!(allocator.outstanding_allocation_bytes(&mem), 0);
}

#[test]
fn every_slab_is_in_exactly_one_list() {
    let mut mem = vec![0u8; 16384 * 12];
    let first = Allocator::create(&mut mem, ADDRESS, 0, 2, 16384).unwrap();
    let second = Allocator::join_from_existing(&mut mem, &first).unwrap();
    for _ in 0..9 {
        first.allocate(&mut mem, MAX_SIZE).unwrap();
    }
    second.allocate(&mut mem, 1).unwrap();
    let mut slabs = Vec::new();
    for allocator in [&first, &second] {
        for size_index in 0..NUM_SIZE_CLASSES {
            slabs.extend(allocator.worker_local_list_partial(size_index).iterate(&mem));
            slabs.extend(allocator.worker_local_list_full(size_index).iterate(&mem));
        }
    }
    assert_eq!(slabs, vec![2, 1, 0, 3]);
    while let Some(slab) = first.global_free_list().pop(&mut mem) {
        slabs.push(slab);
    }
    slabs.sort();
    assert_eq!(slabs, (0..first.base.layout.num_slabs).collect::<Vec<_>>());
}

#[test]
fn owned_slabs_are_used_before_the_pool() {
    let (mut mem, allocator) = initialize_for_test(65536, 4);
    allocator.allocate(&mut mem, 1024).unwrap();
    for _ in 0..63 {
        let ptr = allocator.allocate(&mut mem, 1000).unwrap();
        let indexes = allocator.find_allocation_indexes(&mem, allocator.offset(ptr));
        assert_eq!(indexes.slab_index, 0);
    }
    let ptr = allocator.allocate(&mut mem, 1000).unwrap();
    let indexes = allocator.find_allocation_indexes(&mem, allocator.offset(ptr));
    assert_eq!(indexes.slab_index, 1);
}
