use rts_alloc::allocator::{Allocator, AllocatorBase};
use rts_alloc::assigned::global_free_list::GlobalFreeList as LinkList;
use rts_alloc::assigned::global_free_stack::{self, return_the_slab, try_pop_free_slab};
use rts_alloc::assigned::init::create_allocator;
use rts_alloc::assigned::raw_allocator::RawAllocator;
use rts_alloc::assigned::remote_free_stack::RemoteFreeStack;
use rts_alloc::global_free_list::{
    pack_index, pop_attempt, push_attempt, unpack_index, GlobalFreeList,
};
use rts_alloc::index::{NULL_U16, NULL_U32, NULL_U64};
use rts_alloc::interleave::Task;
use rts_alloc::interleave_claims::ClaimTask;
use rts_alloc::interleave_remote::RemoteTask;
use rts_alloc::linked_list_node::NodeList;
use rts_alloc::memory::{load_u64, store_u16, store_u32, store_u64};
use rts_alloc::remote_free_list::RemoteFreeList;

const NUM_NODES: u32 = 8;

fn shared_list() -> (Vec<u8>, GlobalFreeList) {
    let list = NodeList {
        offset: 8,
        len: NUM_NODES,
    };
    let mut mem = vec![0u8; 8 + 12 * NUM_NODES as usize];
    for word in 0..3 * NUM_NODES as usize {
        store_u32(&mut mem, 8 + 4 * word, NULL_U32);
    }
    store_u64(&mut mem, 0, pack_index(0, NULL_U32));
    (mem, GlobalFreeList::new(0, list))
}

fn collect_free(mem: &[u8], list: &GlobalFreeList) -> Vec<u32> {
    let mut result = Vec::new();
    let (_, mut current) = unpack_index(load_u64(mem, list.head));
    while current != NULL_U32 {
        assert!(!result.contains(&current), "LinkedList cycle detected");
        assert!(current < NUM_NODES, "LinkedList out of bounds");
        result.push(current);
        current = list.list.get(mem, current).global_next;
    }
    result
}

/// Thread A pops one element. Thread B pops an element, pushes it back if there was one, and
/// pops again.
#[derive(Clone)]
struct Run {
    mem: Vec<u8>,
    a: Task,
    b: Task,
    stage: u32,
    a_claimed: Option<u32>,
    b_claimed: Option<u32>,
}

fn explore(
    advance: &dyn Fn(&mut [u8], Task) -> Task,
    remaining: &dyn Fn(&[u8]) -> Vec<u32>,
    run: Run,
    finished: &mut u64,
) {
    let a_done = matches!(run.a, Task::Done { .. });
    let b_done = matches!(run.b, Task::Done { .. }) && run.stage == 2;
    if a_done && b_done {
        let all_indices: Vec<u32> = remaining(&run.mem)
            .into_iter()
            .chain(run.a_claimed)
            .chain(run.b_claimed)
            .collect();
        let mut all_unique = all_indices.clone();
        all_unique.sort();
        all_unique.dedup();
        assert!(
            all_indices.len() == 3 && all_unique.len() == 3,
            "node lost or duplicated! popped=({:?}, {:?}), remaining={:?}",
            run.a_claimed,
            run.b_claimed,
            remaining(&run.mem),
        );
        *finished += 1;
        return;
    }
    if !a_done {
        let mut next = run.clone();
        next.a = advance(&mut next.mem, run.a);
        if let Task::Done { popped } = next.a {
            next.a_claimed = popped;
        }
        explore(advance, remaining, next, finished);
    }
    if !b_done {
        let mut next = run.clone();
        next.b = advance(&mut next.mem, run.b);
        if let Task::Done { popped } = next.b {
            match (next.stage, popped) {
                (0, Some(slab)) => {
                    next.b = Task::PushStart { slab };
                    next.stage = 1;
                }
                (0, None) | (1, _) => {
                    next.b = Task::PopStart;
                    next.stage = 2;
                }
                _ => next.b_claimed = popped,
            }
        }
        explore(advance, remaining, next, finished);
    }
}

/// Every order in which the two threads can take their steps.
fn explore_pops(
    advance: &dyn Fn(&mut [u8], Task) -> Task,
    remaining: &dyn Fn(&[u8]) -> Vec<u32>,
    mem: Vec<u8>,
) {
    let run = Run {
        mem,
        a: Task::PopStart,
        b: Task::PopStart,
        stage: 0,
        a_claimed: None,
        b_claimed: None,
    };
    let mut finished = 0;
    explore(advance, remaining, run, &mut finished);
    assert!(finished > 500);
}

#[test]
fn test_global_free_list_aba() {
    let (mut mem, list) = shared_list();
    list.push(&mut mem, 0);
    list.push(&mut mem, 1);
    list.push(&mut mem, 2);
    explore_pops(
        &|mem, task| list.advance(mem, task),
        &|mem| collect_free(mem, &list),
        mem,
    );
}

#[test]
fn a_stale_head_is_not_exchanged() {
    let (mut mem, list) = shared_list();
    list.push(&mut mem, 0);
    list.push(&mut mem, 1);
    // One worker reads the head and the link of its slab.
    let mut slow = list.advance(&mut mem, Task::PopStart);
    slow = list.advance(&mut mem, slow);
    assert_eq!(slow, Task::PopSwap { seen: pack_index(2, 1), next: 0 });
    // Meanwhile both slabs are popped, and the first is pushed back.
    assert_eq!(list.pop(&mut mem), Some(1));
    assert_eq!(list.pop(&mut mem), Some(0));
    list.push(&mut mem, 1);
    // The head names the same slab again, but the exchange is refused.
    slow = list.advance(&mut mem, slow);
    assert_eq!(slow, Task::PopStart);
    assert_eq!(collect_free(&mem, &list), vec![1]);
}

#[test]
fn a_push_is_refused_only_after_another_exchange() {
    let (mut mem, list) = shared_list();
    let mut slow = list.advance(&mut mem, Task::PushStart { slab: 3 });
    slow = list.advance(&mut mem, slow);
    assert_eq!(slow, Task::PushSwap { slab: 3, seen: pack_index(0, NULL_U32) });
    // Others may load and link as they like.
    let mut other = list.advance(&mut mem, Task::PushStart { slab: 4 });
    other = list.advance(&mut mem, other);
    let mut copy = mem.clone();
    assert_eq!(list.advance(&mut copy, slow), Task::Done { popped: None });
    // Only their exchange gets in the way.
    assert_eq!(list.advance(&mut mem, other), Task::Done { popped: None });
    assert_eq!(list.advance(&mut mem, slow), Task::PushStart { slab: 3 });
}

#[test]
fn someone_always_gets_on() {
    let (mut mem, list) = shared_list();
    list.push(&mut mem, 6);
    list.push(&mut mem, 7);
    let mut tasks: Vec<Task> = (0..4).map(|slab| Task::PushStart { slab }).collect();
    tasks.extend([Task::PopStart; 2]);
    let mut idle = 0;
    while tasks.iter().any(|task| !matches!(task, Task::Done { .. })) {
        for task in tasks.iter_mut() {
            if !matches!(task, Task::Done { .. }) {
                let head = load_u64(&mem, list.head);
                *task = list.advance(&mut mem, *task);
                idle = if load_u64(&mem, list.head) == head { idle + 1 } else { 0 };
                assert!(idle <= 7 * 6);
            }
        }
    }
    assert_eq!(collect_free(&mem, &list).len(), 4);
}

#[test]
fn attempts_move_the_generation_on() {
    assert_eq!(pack_index(7, 5), (7 << 32) | 5);
    assert_eq!(unpack_index((7 << 32) | 5), (7, 5));
    assert_eq!(push_attempt(pack_index(7, 5), 9), (5, pack_index(8, 9)));
    assert_eq!(pop_attempt(pack_index(u32::MAX, 5), 3), pack_index(0, 3));
}

#[derive(Clone)]
struct RemoteRun {
    mem: Vec<u8>,
    pushers: Vec<RemoteTask>,
    owner: RemoteTask,
}

/// Explores every order in which the tasks can take their steps, and hands each final state to
/// `check`.
fn explore_remote(
    advance: &dyn Fn(&mut [u8], RemoteTask) -> RemoteTask,
    check: &dyn Fn(&[u8], u64),
    run: RemoteRun,
    finished: &mut u64,
) {
    let mut stuck = true;
    for i in 0..run.pushers.len() {
        if !matches!(run.pushers[i], RemoteTask::Done { .. }) {
            stuck = false;
            let mut next = run.clone();
            next.pushers[i] = advance(&mut next.mem, run.pushers[i]);
            explore_remote(advance, check, next, finished);
        }
    }
    match run.owner {
        RemoteTask::Done { drained } if stuck => {
            check(&run.mem, drained.unwrap());
            *finished += 1;
        }
        RemoteTask::Done { .. } => {}
        _ => {
            let mut next = run.clone();
            next.owner = advance(&mut next.mem, run.owner);
            explore_remote(advance, check, next, finished);
        }
    }
}

#[test]
fn concurrent_remote_frees_of_a_slab_are_never_lost() {
    let list = RemoteFreeList::new(16, 8, 0, 16);
    let mut mem = vec![0u8; 16 + 8 * 16];
    store_u16(&mut mem, 0, NULL_U16);
    list.push(&mut mem, 6);
    let run = RemoteRun {
        mem,
        pushers: vec![
            RemoteTask::PushStart { first: 2, last: 2 },
            RemoteTask::PushStart { first: 4, last: 4 },
        ],
        owner: RemoteTask::Drain,
    };
    let mut finished = 0;
    explore_remote(
        &|mem, task| list.advance(mem, task),
        &|mem, drained| {
            let mut all = list.iterate(mem);
            let mut copy = mem.to_vec();
            store_u16(&mut copy, list.head, drained as u16);
            all.extend(list.iterate(&copy));
            all.sort();
            assert_eq!(all, vec![2, 4, 6]);
        },
        run,
        &mut finished,
    );
    assert!(finished > 50);
}

#[test]
fn some_remote_free_always_gets_on() {
    let list = RemoteFreeList::new(16, 8, 0, 16);
    let mut mem = vec![0u8; 16 + 8 * 16];
    store_u16(&mut mem, 0, NULL_U16);
    let mut tasks: Vec<RemoteTask> = (0..5)
        .map(|item| RemoteTask::PushStart { first: item, last: item })
        .collect();
    let mut idle = 0;
    while tasks.iter().any(|task| !matches!(task, RemoteTask::Done { .. })) {
        for task in tasks.iter_mut() {
            if !matches!(task, RemoteTask::Done { .. }) {
                let before = list.iterate(&mem).len();
                *task = list.advance(&mut mem, *task);
                idle = if list.iterate(&mem).len() == before { idle + 1 } else { 0 };
                assert!(idle <= 6 * 5);
            }
        }
    }
    assert_eq!(list.iterate(&mem), vec![4, 3, 2, 1, 0]);
}

#[test]
fn concurrent_remote_frees_of_a_worker_are_never_lost() {
    let mut mem = vec![0u8; 4 * 16384];
    let allocator = Allocator::create(&mut mem, 0x1000, 0, 1, 16384).unwrap();
    let offsets: Vec<usize> = (0..3)
        .map(|_| allocator.offset(allocator.allocate(&mut mem, 256).unwrap()))
        .collect();
    // Two of the allocations are pushed as a chain.
    let (a, b, c) = (offsets[0] as u64, offsets[1] as u64, offsets[2] as u64);
    store_u64(&mut mem, offsets[0], b);
    let run = RemoteRun {
        mem,
        pushers: vec![
            RemoteTask::PushStart { first: a, last: b },
            RemoteTask::PushStart { first: c, last: c },
        ],
        owner: RemoteTask::Drain,
    };
    let head = allocator.worker_meta().remote_free_head;
    let follow = |mem: &[u8], first: u64| {
        let mut items = Vec::new();
        let mut item = first;
        while item != NULL_U64 {
            items.push(item);
            item = load_u64(mem, item as usize);
        }
        items
    };
    let mut finished = 0;
    explore_remote(
        &|mem, task| allocator.base.advance_remote_free(mem, 0, task),
        &|mem, drained| {
            let mut all = follow(mem, load_u64(mem, head));
            all.extend(follow(mem, drained));
            all.sort();
            assert_eq!(all, vec![a, b, c]);
        },
        run,
        &mut finished,
    );
    assert!(finished > 50);
}

fn explore_claims(base: &AllocatorBase, mem: &[u8], tasks: &[ClaimTask], finished: &mut u64) {
    let mut stuck = true;
    for i in 0..tasks.len() {
        if matches!(tasks[i], ClaimTask::Try { .. }) {
            stuck = false;
            let mut mem = mem.to_vec();
            let mut tasks = tasks.to_vec();
            tasks[i] = base.advance_claim(&mut mem, tasks[i]);
            explore_claims(base, &mem, &tasks, finished);
        }
    }
    if stuck {
        let mut got: Vec<u32> = tasks
            .iter()
            .filter_map(|task| match task {
                ClaimTask::Got { index } => Some(*index),
                _ => None,
            })
            .collect();
        got.sort();
        assert_eq!(got, vec![1, 2, 3]);
        *finished += 1;
    }
}

#[test]
fn concurrent_joins_get_different_slots() {
    let mut mem = vec![0u8; 4 * 16384];
    let allocator = Allocator::create(&mut mem, 0x1000, 0, 1, 16384).unwrap();
    let mut finished = 0;
    explore_claims(
        &allocator.base,
        &mem,
        &[ClaimTask::Try { index: 0 }; 3],
        &mut finished,
    );
    assert!(finished > 50);
    let num_workers = allocator.base.layout.num_workers;
    let last = ClaimTask::Try { index: num_workers };
    assert_eq!(allocator.base.advance_claim(&mut mem, last), ClaimTask::Refused);
    // With all slots taken, one access for each and one more tell.
    while Allocator::join_from_existing(&mut mem, &allocator).is_ok() {}
    let mut task = ClaimTask::Try { index: 0 };
    for _ in 0..num_workers {
        task = allocator.base.advance_claim(&mut mem, task);
        assert!(matches!(task, ClaimTask::Try { .. }));
    }
    task = allocator.base.advance_claim(&mut mem, task);
    assert_eq!(task, ClaimTask::Refused);
}

#[test]
fn a_list_of_links_does_not_take_a_head_that_came_back() {
    let mut mem = vec![0xffu8; 8 + 4 * 4];
    let list = LinkList::new(0, 8, 4);
    list.push(&mut mem, 0);
    list.push(&mut mem, 1);
    // One worker reads the head and the link of its slab.
    let mut slow = list.advance(&mut mem, Task::PopStart);
    slow = list.advance(&mut mem, slow);
    assert_eq!(slow, Task::PopSwap { seen: pack_index(1, 1), next: 0 });
    // Undisturbed, the exchange is right.
    let mut copy = mem.clone();
    let popped = list.advance(&mut copy, slow);
    assert_eq!(popped, Task::PopClear { slab: 1 });
    assert_eq!(
        list.advance(&mut copy, popped),
        Task::Done { popped: Some(1) }
    );
    assert_eq!(list.next_of(&copy, 1), NULL_U32);
    assert_eq!(list.pop(&mut copy), Some(0));
    // When both slabs are popped and the first is pushed back, the exchange is refused.
    assert_eq!(list.pop(&mut mem), Some(1));
    assert_eq!(list.pop(&mut mem), Some(0));
    list.push(&mut mem, 1);
    slow = list.advance(&mut mem, slow);
    assert_eq!(slow, Task::PopStart);
    assert_eq!(list.pop(&mut mem), Some(1));
    assert_eq!(list.pop(&mut mem), None);
}

#[test]
fn concurrent_pops_from_a_list_of_links_lose_nothing() {
    let list = LinkList::new(0, 8, 3);
    let mut mem = vec![0u8; 8 + 4 * 3];
    list.init_full(&mut mem, 3);
    let remaining = |mem: &[u8]| {
        let mut copy = mem.to_vec();
        let mut slabs = Vec::new();
        while let Some(slab) = list.pop(&mut copy) {
            slabs.push(slab);
        }
        slabs
    };
    explore_pops(&|mem, task| list.advance(mem, task), &remaining, mem);
}

/// One worker and three slabs of 1 KiB, all of them free.
fn free_stack_of_three() -> (Vec<u8>, RawAllocator) {
    let mut mem = vec![0u8; 4096];
    let raw = create_allocator(&mut mem, 0x1000, 1, 1024).unwrap();
    (mem, raw)
}

#[test]
fn concurrent_pops_from_the_global_free_stack_lose_nothing() {
    let (mem, raw) = free_stack_of_three();
    let remaining = |mem: &[u8]| {
        let mut copy = mem.to_vec();
        let mut slabs = Vec::new();
        while let Some(slab) = try_pop_free_slab(&raw, &mut copy) {
            slabs.push(slab);
        }
        slabs
    };
    explore_pops(
        &|mem, task| global_free_stack::advance(&raw, mem, task),
        &remaining,
        mem,
    );
}

#[test]
fn the_global_free_stack_does_not_take_a_head_that_came_back() {
    let (mut mem, raw) = free_stack_of_three();
    let mut slow = global_free_stack::advance(&raw, &mut mem, Task::PopStart);
    assert_eq!(slow, Task::PopRead { seen: pack_index(3, 0) });
    slow = global_free_stack::advance(&raw, &mut mem, slow);
    assert_eq!(slow, Task::PopSwap { seen: pack_index(3, 0), next: 1 });
    // Undisturbed, the exchange is right.
    let mut copy = mem.clone();
    assert_eq!(
        global_free_stack::advance(&raw, &mut copy, slow),
        Task::Done { popped: Some(0) }
    );
    assert_eq!(raw.header(&copy).global_free_stack.0, pack_index(4, 1));
    // Other workers pop two slabs and return the first, step by step.
    assert_eq!(try_pop_free_slab(&raw, &mut mem), Some(0));
    assert_eq!(try_pop_free_slab(&raw, &mut mem), Some(1));
    let mut back = Task::PushStart { slab: 0 };
    while !matches!(back, Task::Done { .. }) {
        back = global_free_stack::advance(&raw, &mut mem, back);
    }
    assert_eq!(raw.header(&mem).global_free_stack.0, pack_index(6, 0));
    slow = global_free_stack::advance(&raw, &mut mem, slow);
    assert_eq!(slow, Task::PopStart);
    return_the_slab(&raw, &mut mem, 1);
    assert_eq!(try_pop_free_slab(&raw, &mut mem), Some(1));
    assert_eq!(try_pop_free_slab(&raw, &mut mem), Some(0));
    assert_eq!(try_pop_free_slab(&raw, &mut mem), Some(2));
    assert_eq!(try_pop_free_slab(&raw, &mut mem), None);
}

#[test]
fn concurrent_pushes_on_a_remote_free_stack_are_never_lost() {
    let stack = RemoteFreeStack { head: 0 };
    let mut mem = vec![0u8; 64 + 8 * 64];
    stack.reset(&mut mem);
    stack.push(&mut mem, 6, 64, 64);
    let run = RemoteRun {
        mem,
        pushers: vec![
            RemoteTask::PushStart { first: 2, last: 2 },
            RemoteTask::PushStart { first: 4, last: 4 },
        ],
        owner: RemoteTask::Drain,
    };
    let mut finished = 0;
    explore_remote(
        &|mem, task| stack.advance(mem, 64, 64, 8, task),
        &|mem, drained| {
            let mut all = Vec::new();
            let mut copy = mem.to_vec();
            let mut rest = stack.drain(&mut copy, 64, 64);
            while let Some(index) = rest.next(mem) {
                all.push(index);
            }
            rest.current = drained as u32;
            while let Some(index) = rest.next(mem) {
                all.push(index);
            }
            all.sort();
            assert_eq!(all, vec![2, 4, 6]);
        },
        run,
        &mut finished,
    );
    assert!(finished > 50);
}
