use rts_alloc::free_stack::FreeStack;
use rts_alloc::global_free_list::{pack_index, GlobalFreeList};
use rts_alloc::index::{NULL_U16, NULL_U32};
use rts_alloc::linked_list_node::NodeList;
use rts_alloc::memory::{store_u16, store_u32, store_u64};
use rts_alloc::remote_free_list::RemoteFreeList;
use rts_alloc::size_classes::{
    size_class, size_class_index, MAX_SIZE, MIN_SIZE, SIZE_CLASSES,
};
use rts_alloc::worker_local_list::WorkerLocalList;

#[test]
fn test_free_stack() {
    const MAX_CAPACITY: u16 = 1024;
    let mut mem = vec![0u8; FreeStack::byte_size(MAX_CAPACITY)];
    let stack = FreeStack::new(0, 2, 4);
    stack.reset(&mut mem, MAX_CAPACITY);
    assert!(stack.is_full(&mem));

    // Pop until empty.
    for index in 0..MAX_CAPACITY {
        assert_eq!(stack.pop(&mut mem), Some(index));
        assert!(!stack.is_full(&mem));
    }
    assert_eq!(stack.pop(&mut mem), None);
    assert!(!stack.is_full(&mem));

    // Push back all items.
    for index in 0..MAX_CAPACITY {
        stack.push(&mut mem, index);
    }
    assert!(stack.is_full(&mem));

    // Pop until empty again, this time items are in reverse order.
    for index in (0..MAX_CAPACITY).rev() {
        assert_eq!(stack.pop(&mut mem), Some(index));
    }

    assert_eq!(stack.pop(&mut mem), None);
}

/// A region with a head word in its first eight bytes, and a table of nodes without links.
fn node_list(len: u32) -> (Vec<u8>, NodeList) {
    let list = NodeList { offset: 8, len };
    let mut mem = vec![0u8; 8 + 12 * len as usize];
    for word in 0..3 * len as usize {
        store_u32(&mut mem, 8 + 4 * word, NULL_U32);
    }
    (mem, list)
}

#[test]
fn test_global_free_list() {
    const LIST_CAPACITY: u32 = 1024;

    let (mut mem, nodes) = node_list(LIST_CAPACITY);
    store_u64(&mut mem, 0, pack_index(0, NULL_U32));
    let global_free_list = GlobalFreeList::new(0, nodes);

    let range = 0..3;
    for index in range.clone() {
        global_free_list.push(&mut mem, index);
    }

    for index in range.clone().rev() {
        assert_eq!(global_free_list.pop(&mut mem), Some(index));
    }
    assert_eq!(global_free_list.pop(&mut mem), None);

    // check that the links have been cleared
    for index in range {
        assert_eq!(nodes.get(&mem, index).global_next, NULL_U32);
    }
}

#[test]
fn test_worker_local_list() {
    const LIST_CAPACITY: u32 = 1024;
    let (mut mem, nodes) = node_list(LIST_CAPACITY);
    store_u32(&mut mem, 0, NULL_U32);
    let worker_local_list = WorkerLocalList::new(0, nodes);

    // Test removal orders:
    // - [head, head, head]
    // - [tail, tail, tail]
    // - [middle, head, head]
    for removal_order in [[2, 1, 0], [0, 1, 2], [1, 2, 0], [1, 0, 2]] {
        worker_local_list.push(&mut mem, 0);
        assert_eq!(worker_local_list.iterate(&mem), vec![0]);

        worker_local_list.push(&mut mem, 1);
        assert_eq!(worker_local_list.iterate(&mem), vec![1, 0]);

        worker_local_list.push(&mut mem, 2);
        assert_eq!(worker_local_list.iterate(&mem), vec![2, 1, 0]);

        let mut expected_order = vec![2, 1, 0];
        for index in removal_order {
            worker_local_list.remove(&mut mem, index);
            expected_order.retain(|&x| x != index);
            assert_eq!(
                worker_local_list.iterate(&mem),
                expected_order,
                "mismatch for order: {removal_order:?}"
            );
        }
    }
}

#[test]
fn test_remote_free_list() {
    const SLAB_ITEM_SIZE: u32 = MIN_SIZE;
    const TEST_CAPACITY: u16 = 128;
    let mut mem = vec![0u8; 64 + SLAB_ITEM_SIZE as usize * TEST_CAPACITY as usize];
    store_u16(&mut mem, 0, NULL_U16);

    let remote_free_list = RemoteFreeList::new(SLAB_ITEM_SIZE, TEST_CAPACITY, 0, 64);

    remote_free_list.push(&mut mem, 7);
    remote_free_list.push(&mut mem, 42);
    remote_free_list.push(&mut mem, 63);
    assert_eq!(remote_free_list.iterate(&mem), [63, 42, 7]);

    let drained = remote_free_list.drain(&mut mem);
    assert_eq!(remote_free_list.iterate(&mem), [] as [u16; 0]);
    remote_free_list.push(&mut mem, 99);
    remote_free_list.push(&mut mem, 79);
    assert_eq!(drained, [63, 42, 7]);
    assert_eq!(remote_free_list.iterate(&mem), [79, 99]);
    assert_eq!(remote_free_list.iterate(&mem), [79, 99]);
}

#[test]
fn test_size_class_index() {
    for (i, &size) in SIZE_CLASSES.iter().enumerate() {
        assert_eq!(size_class_index(size - 1), Some(i));
        assert_eq!(size_class_index(size), Some(i));
    }
    assert!(size_class_index(MAX_SIZE + 1).is_none());
}

#[test]
fn test_size_class() {
    for (i, &size) in SIZE_CLASSES.iter().enumerate() {
        assert_eq!(size_class(i), size);
    }
}

#[test]
fn words_are_little_endian() {
    let mut mem = vec![0u8; 16];
    store_u32(&mut mem, 1, 0x0403_0201);
    assert_eq!(mem[..6], [0, 1, 2, 3, 4, 0]);
    store_u64(&mut mem, 8, 1);
    assert_eq!(mem[8..], [1, 0, 0, 0, 0, 0, 0, 0]);
}
