use rts_alloc::assigned::error::Error;
use rts_alloc::assigned::free_stack::FreeStack;
use rts_alloc::assigned::global_free_list::GlobalFreeList;
use rts_alloc::assigned::header::{layout, Header, MAGIC, VERSION};
use rts_alloc::assigned::init::{create_allocator, join_allocator, room_for};
use rts_alloc::assigned::raw_allocator::RawAllocator;
use rts_alloc::assigned::remote_free_stack::{RemoteFreeStack, RemoteFreeStackIter};
use rts_alloc::assigned::worker_assigned::WorkerAssignedAllocator;
use rts_alloc::assigned::worker_local_list::WorkerLocalList;
use rts_alloc::assigned::worker_state::WorkerState;
use rts_alloc::global_free_list::{pack_index, unpack_index};
use rts_alloc::header::layout::HEADER_SIZE;
use rts_alloc::index::NULL_U32;
use rts_alloc::memory::{load_u32, store_u32};
use rts_alloc::node_table::NodeTable;
use rts_alloc::size_classes::MAX_SIZE;

const ADDRESS: usize = 0x20_0000;

#[test]
fn free_stack_test_free_stack() {
    let mut buffer = [0u8; 1024];
    let max_capacity = ((buffer.len() - FreeStack::byte_size(0)) / 2) as u16;

    let stack = FreeStack { top: 0 };
    stack.reset(&mut buffer, max_capacity);

    // Pop until empty.
    for index in 0..max_capacity {
        assert_eq!(stack.pop(&mut buffer), Some(index));
    }
    assert_eq!(stack.pop(&mut buffer), None);

    // Push back all items.
    for index in 0..max_capacity {
        stack.push(&mut buffer, index);
    }

    // Pop until empty again, this time items are in reverse order.
    for index in (0..max_capacity).rev() {
        assert_eq!(stack.pop(&mut buffer), Some(index));
    }

    assert_eq!(stack.pop(&mut buffer), None);
}

#[test]
fn free_stack_get_reads_from_the_bottom() {
    let mut buffer = [0u8; 256];
    let stack = FreeStack { top: 0 };
    stack.reset(&mut buffer, 4);
    assert_eq!(stack.len(&buffer), 4);
    assert_eq!(stack.get(&buffer, 0), 3);
    assert_eq!(stack.get(&buffer, 3), 0);
    assert!(!stack.is_empty(&buffer));
}

#[test]
fn global_free_list_test_global_free_list() {
    const LIST_CAPACITY: u32 = 1024;

    let mut mem = vec![0xffu8; 8 + 4 * LIST_CAPACITY as usize];
    let global_free_list = GlobalFreeList::new(0, 8, LIST_CAPACITY);

    let range = 0..3;
    for index in range.clone() {
        global_free_list.push(&mut mem, index);
    }

    for index in range.clone().rev() {
        assert_eq!(global_free_list.pop(&mut mem), Some(index));
    }
    assert_eq!(global_free_list.pop(&mut mem), None);

    // check that the links have been cleared
    for index in range {
        assert_eq!(global_free_list.next_of(&mem, index), NULL_U32);
    }
}

#[test]
fn global_free_list_init_full_starts_with_the_lowest() {
    let mut mem = vec![7u8; 8 + 4 * 5];
    let list = GlobalFreeList::new(0, 8, 5);
    list.init_full(&mut mem, 4);
    // The link of the last slab is left alone.
    assert_eq!(list.next_of(&mem, 4), 0x0707_0707);
    for index in 0..4 {
        assert_eq!(list.pop(&mut mem), Some(index));
    }
    assert_eq!(list.pop(&mut mem), None);
    list.init_full(&mut mem, 5);
    list.clear_head(&mut mem);
    assert_eq!(list.pop(&mut mem), None);
}

#[test]
fn header_test_layout() {
    let num_workers = 4;
    let num_slabs = 8;
    let slab_size = 4096;

    let mut offset = layout::header_size();
    assert_eq!(offset, HEADER_SIZE);

    offset += layout::worker_local_list_heads_size(num_workers);
    assert_eq!(offset, 384);

    offset = layout::pad_for_free_list_elements(offset);
    assert_eq!(offset, 384);

    offset += layout::free_list_elements_size(num_slabs);
    assert_eq!(offset, 480);

    offset = layout::pad_for_slab_meta(offset);
    assert_eq!(offset, 512);

    offset += layout::slab_meta_size(num_slabs);
    assert_eq!(offset, 1536);

    offset = layout::pad_for_slab_free_stacks(offset);
    assert_eq!(offset, 1536);

    offset += layout::free_stacks_size(num_slabs, slab_size);
    assert_eq!(offset, 2304);

    offset = layout::pad_for_slabs(offset, slab_size);
    assert_eq!(offset, 4096);
}

#[test]
fn worker_local_list_test_worker_local_list() {
    const LIST_CAPACITY: u32 = 1024;
    let mut mem = vec![0xffu8; 4 + 12 * LIST_CAPACITY as usize];
    store_u32(&mut mem, 0, NULL_U32);
    let table = NodeTable {
        base: 4,
        stride: 12,
        prev: 4,
        next: 8,
        len: LIST_CAPACITY,
    };
    let worker_local_list = WorkerLocalList::new(0, table);

    // Test removal orders:
    // - [head, head, head]
    // - [tail, tail, tail]
    // - [middle, head, head]
    for removal_order in [[2, 1, 0], [0, 1, 2], [1, 2, 0], [1, 0, 2]] {
        worker_local_list.push(&mut mem, 0);
        assert_eq!(worker_local_list.iterate(&mem), vec![0]);

        worker_local_list.push(&mut mem, 1);
        assert_eq!(worker_local_list.iterate(&mem), vec![1, 0]);

        worker_local_list.push(&mut mem, 2);
        assert_eq!(worker_local_list.iterate(&mem), vec![2, 1, 0]);

        let mut expected_order = vec![2, 1, 0];
        for index in removal_order {
            worker_local_list.remove(&mut mem, index);
            expected_order.retain(|&x| x != index);
            assert_eq!(
                worker_local_list.iterate(&mem),
                expected_order,
                "mismatch for order: {removal_order:?}"
            );
        }
    }

    worker_local_list.push(&mut mem, 9);
    worker_local_list.initialize_as_empty(&mut mem, LIST_CAPACITY);
    assert_eq!(worker_local_list.head(&mem), None);
}

#[test]
fn worker_local_list_is_emptied_up_to_a_capacity() {
    let mut mem = vec![7u8; 4 + 12 * 4];
    let table = NodeTable {
        base: 4,
        stride: 12,
        prev: 4,
        next: 8,
        len: 4,
    };
    let list = WorkerLocalList::new(0, table);
    list.initialize_as_empty(&mut mem, 2);
    assert_eq!(list.head(&mem), None);
    for slab in 0..4 {
        let link = if slab < 2 { NULL_U32 } else { 0x0707_0707 };
        assert_eq!(load_u32(&mem, 4 + 12 * slab), 0x0707_0707);
        assert_eq!(load_u32(&mem, 8 + 12 * slab), link);
        assert_eq!(load_u32(&mem, 12 + 12 * slab), link);
    }
}

fn collect(mut iter: RemoteFreeStackIter, mem: &[u8]) -> Vec<u32> {
    let mut indices = Vec::new();
    while let Some(index) = iter.next(mem) {
        indices.push(index);
    }
    indices
}

#[test]
fn test_remote_free_stack_push_pop() {
    const SLAB_SIZE: u32 = 64;
    const NUM_SLABS: u32 = 32;
    let slab = 64;
    let mut mem = vec![0u8; 64 + (SLAB_SIZE * NUM_SLABS) as usize];
    let remote_free_stack = RemoteFreeStack { head: 0 };
    remote_free_stack.reset(&mut mem);

    // Push until full
    for index in 0..NUM_SLABS {
        remote_free_stack.push(&mut mem, index, SLAB_SIZE, slab);
    }

    // Drain the stack and collect the indices.
    let iter = remote_free_stack.drain(&mut mem, SLAB_SIZE, slab);
    let drained_indices = collect(iter, &mem);

    let expected: Vec<u32> = (0..NUM_SLABS).rev().collect();
    assert_eq!(drained_indices, expected);
}

#[test]
fn test_remote_free_stack_swapped_head() {
    const SLAB_SIZE: u32 = 64;
    const NUM_SLABS: u32 = 32;
    let slab = 64;
    let mut mem = vec![0u8; 64 + (SLAB_SIZE * NUM_SLABS) as usize];
    let remote_free_stack = RemoteFreeStack { head: 0 };
    remote_free_stack.reset(&mut mem);

    // Push first half of the stack.
    for index in 0..NUM_SLABS / 2 {
        remote_free_stack.push(&mut mem, index, SLAB_SIZE, slab);
    }

    // Get the iterator for draining the stack, but do not iterate over it yet.
    let iter = remote_free_stack.drain(&mut mem, SLAB_SIZE, slab);

    // Push the second half of the stack.
    for index in NUM_SLABS / 2..NUM_SLABS {
        remote_free_stack.push(&mut mem, index, SLAB_SIZE, slab);
    }

    // Iterating over the drain should only yield the first half of the stack.
    let drained_indices = collect(iter, &mem);
    let expected: Vec<u32> = (0..NUM_SLABS / 2).rev().collect();
    assert_eq!(drained_indices, expected);

    // Draining again should yield the second half of the stack.
    let iter = remote_free_stack.drain(&mut mem, SLAB_SIZE, slab);
    let drained_indices = collect(iter, &mem);
    let expected: Vec<u32> = (NUM_SLABS / 2..NUM_SLABS).rev().collect();
    assert_eq!(drained_indices, expected);
}

/// Four workers and 63 slabs of 64 KiB.
fn created() -> (Vec<u8>, RawAllocator) {
    let mut mem = vec![0u8; 4 * 1024 * 1024];
    let allocator = create_allocator(&mut mem, ADDRESS, 4, 65536).unwrap();
    (mem, allocator)
}

#[test]
fn create_writes_the_header() {
    let (mem, allocator) = created();
    let header = allocator.header(&mem);
    assert_eq!(
        header,
        Header {
            magic: MAGIC,
            version: VERSION,
            num_workers: 4,
            num_slabs: 63,
            slab_meta_size: 704,
            slab_meta_offset: 320,
            slab_size: 65536,
            slab_offset: 65536,
            global_free_stack: rts_alloc::cache_aligned::CacheAligned(pack_index(63, 0)),
        }
    );
    assert_eq!(allocator, join_allocator(ADDRESS));
    for worker in 0..4 {
        let state = allocator.worker_state(&mem, worker);
        assert_eq!(
            state,
            WorkerState {
                partial_slabs_heads: [NULL_U32; 5],
                full_slabs_heads: [NULL_U32; 5],
            }
        );
        assert_eq!(state.partial_head(0), None);
    }
}

#[test]
fn room_is_checked_for_the_metadata_of_the_workers() {
    assert!(room_for(4, 65536, 4 * 1024 * 1024));
    // Without slabs, the first would start here.
    assert!(room_for(4, 65536, 65536));
    assert!(!room_for(4, 65536, 65535));
    // Sizes are 32-bit words.
    assert!(!room_for(4, 65536, 1 << 32));
    assert!(!room_for(u32::MAX, 65536, 4 * 1024 * 1024));
}

#[test]
fn the_metadata_of_all_slabs_comes_before_the_first() {
    let mut mem = vec![0u8; 64 * 1024 * 1024];
    let created = create_allocator(&mut mem, ADDRESS, 4, 65536).unwrap();
    let raw = join_allocator(ADDRESS);
    assert_eq!(created, raw);
    assert!(raw.is_laid_out(&mem));
    let header = raw.header(&mem);
    assert_eq!(header.num_slabs, 1013);
    assert_eq!(header.slab_meta_offset, 320);
    assert_eq!(header.slab_meta_size, 704);
    assert_eq!(header.slab_offset, 11 * 65536);
    assert!(header.slab_meta_offset + header.num_slabs * header.slab_meta_size <= header.slab_offset);
    assert_eq!(raw.slab(&mem, 1012) + 65536, mem.len());
    let allocator = WorkerAssignedAllocator::new(raw, 2, &mem);
    let mut ptrs = Vec::new();
    for slab in 0..1013 {
        let ptr = allocator.allocate(&mut mem, 4096).unwrap();
        assert_eq!(ptr, ADDRESS + (11 + slab) * 65536);
        mem[ptr - ADDRESS..ptr - ADDRESS + 4096].fill(0xFF);
        ptrs.push(ptr);
        for _ in 1..16 {
            ptrs.push(allocator.allocate(&mut mem, 4096).unwrap());
        }
    }
    assert_eq!(allocator.allocate(&mut mem, 4096), None);
    for ptr in ptrs {
        assert!(raw.is_in_use(&mem, ptr - ADDRESS));
        allocator.free(&mut mem, ptr);
    }
    assert_eq!(raw.full_list(&mem, 2, 4).head(&mem), None);
    // The slabs that were emptied went back; one of them is the next to be used.
    assert!(allocator.allocate(&mut mem, 256).is_some());
}

#[test]
fn a_region_may_have_no_slabs() {
    let mut mem = vec![0u8; 65536];
    let raw = create_allocator(&mut mem, ADDRESS, 4, 65536).unwrap();
    assert_eq!(raw.header(&mem).num_slabs, 0);
    assert_eq!(raw.header(&mem).global_free_stack.0, pack_index(0, NULL_U32));
    assert!(raw.is_laid_out(&mem));
    let allocator = WorkerAssignedAllocator::new(raw, 0, &mem);
    assert_eq!(allocator.allocate(&mut mem, 256), None);
}

#[test]
fn only_allocations_are_in_use() {
    let (mut mem, raw) = created();
    let owner = WorkerAssignedAllocator::new(raw, 0, &mem);
    let other = WorkerAssignedAllocator::new(raw, 1, &mem);
    let first = owner.allocate(&mut mem, 1024).unwrap() - ADDRESS;
    let second = owner.allocate(&mut mem, 1024).unwrap() - ADDRESS;
    assert!(raw.is_in_use(&mem, first));
    assert!(raw.is_in_use(&mem, second));
    // Not before the slabs, within a slot, in a free slot, in a slab that nobody owns or
    // after the slabs.
    assert!(!raw.is_in_use(&mem, 0));
    assert!(!raw.is_in_use(&mem, first + 256));
    assert!(!raw.is_in_use(&mem, second + 1024));
    assert!(!raw.is_in_use(&mem, 2 * 65536));
    assert!(!raw.is_in_use(&mem, 64 * 65536));
    assert!(!raw.is_in_use(&mem, usize::MAX));
    other.free(&mut mem, ADDRESS + first);
    assert!(!raw.is_in_use(&mem, first));
    owner.free(&mut mem, ADDRESS + second);
    assert!(!raw.is_in_use(&mem, second));
}

#[test]
fn create_rejects_a_slab_size_that_is_no_power_of_two() {
    let mut mem = vec![0u8; 1024];
    assert!(matches!(
        create_allocator(&mut mem, ADDRESS, 4, 65535),
        Err(Error::InvalidSlabSize)
    ));
    assert!(mem.iter().all(|byte| *byte == 0));
}

#[test]
fn slabs_and_metadata_lie_one_after_another() {
    let (mem, allocator) = created();
    assert_eq!(allocator.slab_meta(&mem, 0).offset, 320);
    assert_eq!(allocator.slab_meta(&mem, 2).offset, 320 + 2 * 704);
    assert_eq!(allocator.slab(&mem, 0), 65536);
    assert_eq!(allocator.slab(&mem, 62), 63 * 65536);
    assert_eq!(allocator.offset_to_ptr(17), ADDRESS + 17);
    assert_eq!(allocator.ptr_to_offset(ADDRESS + 17), 17);
}

#[test]
fn allocations_fill_a_slab_in_order_and_come_back() {
    let (mut mem, raw) = created();
    let allocator = WorkerAssignedAllocator::new(raw, 1, &mem);
    assert_eq!(allocator.allocate(&mut mem, MAX_SIZE + 1), None);
    let ptrs: Vec<usize> = (0..16)
        .map(|_| allocator.allocate(&mut mem, 4000).unwrap())
        .collect();
    for (i, ptr) in ptrs.iter().enumerate() {
        assert_eq!(*ptr, ADDRESS + 65536 + i * 4096);
    }
    let partial = raw.partial_list(&mem, 1, 4);
    let full = raw.full_list(&mem, 1, 4);
    assert_eq!(partial.iterate(&mem), Vec::<u32>::new());
    assert_eq!(full.iterate(&mem), vec![0]);
    // The next allocation takes another slab.
    let other = allocator.allocate(&mut mem, 4096).unwrap();
    assert_eq!(other, ADDRESS + 2 * 65536);
    assert_eq!(partial.iterate(&mem), vec![1]);
    assert_eq!(raw.worker_state(&mem, 1).partial_head(4), Some(1));
    // The last free slot that was put back is the first to be used again.
    allocator.free(&mut mem, ptrs[3]);
    assert_eq!(partial.iterate(&mem), vec![0, 1]);
    assert_eq!(allocator.allocate(&mut mem, 4096), Some(ptrs[3]));
    for ptr in ptrs {
        allocator.free(&mut mem, ptr);
    }
    allocator.free(&mut mem, other);
    assert_eq!(partial.iterate(&mem), Vec::<u32>::new());
    assert_eq!(full.iterate(&mem), Vec::<u32>::new());
    assert_eq!(unpack_index(raw.header(&mem).global_free_stack.0).1, 1);
}

#[test]
fn a_request_for_nothing_gets_the_smallest_class() {
    let (mut mem, raw) = created();
    let allocator = WorkerAssignedAllocator::new(raw, 0, &mem);
    let first = allocator.allocate(&mut mem, 0).unwrap();
    let second = allocator.allocate(&mut mem, 256).unwrap();
    assert_eq!(second - first, 256);
}

#[test]
fn remote_frees_wait_until_they_are_drained() {
    let (mut mem, raw) = created();
    let owner = WorkerAssignedAllocator::new(raw, 0, &mem);
    let other = WorkerAssignedAllocator::new(raw, 3, &mem);
    let ptrs: Vec<usize> = (0..16)
        .map(|_| owner.allocate(&mut mem, 4096).unwrap())
        .collect();
    for ptr in &ptrs {
        other.free(&mut mem, *ptr);
    }
    // Still full for the owner.
    assert_eq!(raw.full_list(&mem, 0, 4).iterate(&mem), vec![0]);
    let elsewhere = owner.allocate(&mut mem, 4096).unwrap();
    assert_eq!(elsewhere, ADDRESS + 2 * 65536);
    owner.drain_remote_frees(&mut mem);
    // All slots of the first slab came back, so it left the worker.
    assert_eq!(raw.full_list(&mem, 0, 4).iterate(&mem), Vec::<u32>::new());
    assert_eq!(raw.partial_list(&mem, 0, 4).iterate(&mem), vec![1]);
    assert_eq!(unpack_index(raw.header(&mem).global_free_stack.0).1, 0);
}

#[test]
fn draining_a_class_leaves_other_classes_alone() {
    let (mut mem, raw) = created();
    let owner = WorkerAssignedAllocator::new(raw, 0, &mem);
    let other = WorkerAssignedAllocator::new(raw, 1, &mem);
    let small = owner.allocate(&mut mem, 256).unwrap();
    let large = owner.allocate(&mut mem, 4096).unwrap();
    other.free(&mut mem, small);
    other.free(&mut mem, large);
    owner.drain_remote_frees_for_size_class(&mut mem, 0);
    assert_eq!(raw.partial_list(&mem, 0, 0).head(&mem), None);
    assert_eq!(raw.partial_list(&mem, 0, 4).head(&mem), Some(1));
    owner.drain_remote_frees_for_size_class(&mut mem, 4);
    assert_eq!(raw.partial_list(&mem, 0, 4).head(&mem), None);
}

#[test]
fn a_partly_used_slab_is_drained_in_place() {
    let (mut mem, raw) = created();
    let owner = WorkerAssignedAllocator::new(raw, 0, &mem);
    let other = WorkerAssignedAllocator::new(raw, 1, &mem);
    let keep = owner.allocate(&mut mem, 1024).unwrap();
    let gone = owner.allocate(&mut mem, 1024).unwrap();
    other.free(&mut mem, gone);
    owner.drain_remote_frees(&mut mem);
    assert_eq!(owner.allocate(&mut mem, 1024), Some(gone));
    owner.free(&mut mem, keep);
}

#[test]
fn clearing_a_worker_returns_all_its_slabs() {
    let (mut mem, raw) = created();
    let first = WorkerAssignedAllocator::new(raw, 0, &mem);
    let second = WorkerAssignedAllocator::new(raw, 1, &mem);
    for _ in 0..20 {
        first.allocate(&mut mem, 4096).unwrap();
    }
    first.allocate(&mut mem, 256).unwrap();
    let kept = second.allocate(&mut mem, 256).unwrap();
    raw.clear_worker(&mut mem, 0);
    for class in 0..5 {
        assert_eq!(raw.partial_list(&mem, 0, class).head(&mem), None);
        assert_eq!(raw.full_list(&mem, 0, class).head(&mem), None);
    }
    assert_eq!(raw.partial_list(&mem, 1, 0).iterate(&mem), vec![3]);
    // All slabs but the one of the other worker can be taken.
    let mut taken = 0;
    while raw.take_free_slab(&mut mem, 2, 0) {
        taken += 1;
    }
    assert_eq!(taken, 62);
    second.free(&mut mem, kept);
    assert!(raw.take_free_slab(&mut mem, 2, 0));
}

#[test]
fn small_slabs_hold_one_slot_of_the_largest_class() {
    // 4 KiB slabs: the metadata of twelve of them fits in front of the first.
    let mut mem = vec![0u8; 4096 * 13];
    let raw = create_allocator(&mut mem, ADDRESS, 1, 4096).unwrap();
    assert_eq!(raw.header(&mem).num_slabs, 12);
    let allocator = WorkerAssignedAllocator::new(raw, 0, &mem);
    let ptr = allocator.allocate(&mut mem, 4096).unwrap();
    assert_eq!(raw.full_list(&mem, 0, 4).iterate(&mem), vec![0]);
    allocator.free(&mut mem, ptr);
    assert_eq!(raw.partial_list(&mem, 0, 4).iterate(&mem), vec![0]);
    assert_eq!(allocator.allocate(&mut mem, 4096), Some(ptr));
}

#[test]
fn rounds_free_what_they_allocate() {
    let (mut mem, raw) = created();
    let allocator = WorkerAssignedAllocator::new(raw, 0, &mem);
    allocator.start_afresh(&mut mem, true);
    for class in 0..5 {
        assert!(raw.partial_list(&mem, 0, class).head(&mem).is_some());
    }
    let before = mem.clone();
    let mut allocations = Vec::new();
    let sizes = [3521, 2186, 171, 5000, 347];
    let served = allocator.allocate_each(&mut mem, &sizes, &mut allocations);
    assert_eq!(served.num_allocated, 4);
    assert_eq!(served.bytes_allocated, 3521 + 2186 + 171 + 347);
    assert!(served.full);
    assert_eq!(allocations.len(), 4);
    let freed: Vec<usize> = allocations.iter().map(|ptr| ptr - ADDRESS).collect();
    let other = WorkerAssignedAllocator::new(raw, 1, &mem);
    let mut remote = mem.clone();
    other.free_all(&mut remote, &mut allocations.clone());
    for i in 65536..mem.len() {
        let linked = freed.iter().any(|off| *off <= i && i < off + 4);
        assert!(linked || remote[i] == mem[i]);
    }
    allocator.free_all(&mut mem, &mut allocations);
    assert!(allocations.is_empty());
    for class in 0..5 {
        assert_eq!(
            raw.partial_list(&mem, 0, class).iterate(&mem),
            raw.partial_list(&before, 0, class).iterate(&before)
        );
    }
    allocator.start_afresh(&mut mem, false);
    for class in 0..5 {
        assert_eq!(raw.partial_list(&mem, 0, class).head(&mem), None);
    }
}

#[test]
fn a_round_leaves_nothing_in_use() {
    let (mut mem, raw) = created();
    let allocator = WorkerAssignedAllocator::new(raw, 0, &mem);
    let kept = allocator.allocate(&mut mem, 256).unwrap();
    let served = allocator.round(&mut mem, &[256, 5000, 4096]);
    assert_eq!(served.num_allocated, 2);
    assert_eq!(served.bytes_allocated, 4352);
    assert!(served.full);
    assert!(raw.is_in_use(&mem, kept - ADDRESS));
    assert!(!raw.is_in_use(&mem, kept - ADDRESS + 256));
    assert_eq!(raw.partial_list(&mem, 0, 0).iterate(&mem), vec![0]);
    assert_eq!(raw.partial_list(&mem, 0, 4).head(&mem), None);
}

#[test]
fn the_other_worker_frees_once_the_space_has_run_out() {
    // Three slabs of two slots each.
    let mut mem = vec![0u8; 4096];
    let raw = create_allocator(&mut mem, ADDRESS, 2, 1024).unwrap();
    assert_eq!(raw.header(&mem).num_slabs, 3);
    let worker = WorkerAssignedAllocator::new(raw, 0, &mem);
    let mut allocations = Vec::new();
    let sizes = [512, 512];
    for round in 1..4 {
        let served = worker.round_with_remote_frees(&mut mem, 1, &sizes, &mut allocations);
        assert_eq!((served.num_allocated, served.full), (2, false));
        assert_eq!(allocations.len(), 2 * round);
    }
    // Nothing is left, so all are freed by the other worker, and wait for the owner.
    let held = allocations.clone();
    let served = worker.round_with_remote_frees(&mut mem, 1, &sizes, &mut allocations);
    assert_eq!((served.num_allocated, served.bytes_allocated), (0, 0));
    assert!(served.full && allocations.is_empty());
    for ptr in held {
        assert!(!raw.is_in_use(&mem, ptr - ADDRESS));
    }
    assert_eq!(raw.full_list(&mem, 0, 1).iterate(&mem).len(), 3);
    // The next round drains them first.
    let served = worker.round_with_remote_frees(&mut mem, 1, &sizes, &mut allocations);
    assert_eq!((served.num_allocated, served.full), (2, false));
    assert_eq!(raw.full_list(&mem, 0, 1).iterate(&mem).len(), 1);
}

#[test]
fn contents_are_the_users_own() {
    let (mut mem, raw) = created();
    let owner = WorkerAssignedAllocator::new(raw, 0, &mem);
    let other = WorkerAssignedAllocator::new(raw, 1, &mem);
    let kept = owner.allocate(&mut mem, 512).unwrap() - ADDRESS;
    let gone = owner.allocate(&mut mem, 512).unwrap();
    mem[kept..kept + 512].fill(0xC3);
    other.free(&mut mem, gone);
    owner.drain_remote_frees(&mut mem);
    assert_eq!(owner.allocate(&mut mem, 512), Some(gone));
    assert!(mem[kept..kept + 512].iter().all(|byte| *byte == 0xC3));
}

#[test]
fn tiny_slabs_serve_the_classes_that_fit() {
    // 1 KiB slabs, behind the metadata of three.
    let mut mem = vec![0u8; 4096];
    let raw = create_allocator(&mut mem, ADDRESS, 1, 1024).unwrap();
    assert_eq!(raw.header(&mem).slab_offset, 1024);
    assert_eq!(raw.header(&mem).num_slabs, 3);
    assert!(raw.is_laid_out(&mem));
    let allocator = WorkerAssignedAllocator::new(raw, 0, &mem);
    assert!(raw.can_serve(&mem, 1024));
    assert!(!raw.can_serve(&mem, 1025));
    assert!(raw.can_serve(&mem, MAX_SIZE + 1));
    let ptrs: Vec<usize> = (0..6)
        .map(|_| allocator.allocate(&mut mem, 512).unwrap() - ADDRESS)
        .collect();
    assert_eq!(ptrs, vec![1024, 1536, 2048, 2560, 3072, 3584]);
    assert_eq!(allocator.allocate(&mut mem, 512), None);
    // With no slab left, a size that would not fit is refused too.
    assert_eq!(allocator.allocate(&mut mem, 4096), None);
    for ptr in ptrs {
        allocator.free(&mut mem, ptr + ADDRESS);
    }
    assert_eq!(raw.partial_list(&mem, 0, 1).head(&mem), None);
}
