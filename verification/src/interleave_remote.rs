//! Remote free lists under concurrent use.
//!
//! Any number of workers push what they free, one by one or in chains, and the owner drains
//! the list. Each task makes one access to the shared words at a time, and tasks may take
//! their steps in any order. What is shown here is that nothing that was freed is lost or
//! drained twice, that the owner can follow the links of what it has drained at leisure, and
//! that no worker keeps the others from getting on.
use crate::allocator::AllocatorBase;
use crate::index::{NULL_U16, NULL_U64};
use crate::interleave::{lemma_sum_bound, lemma_sum_less, sum};
use crate::memory::{
    load_u16, load_u64, same_outside, store_u16, store_u64, u16_at, u64_at,
};
use crate::records::{lemma_record_apart, lemma_record_within};
use crate::region::{CachedLayout, REMOTE_HEAD};
use crate::remote_free_list::RemoteFreeList;
use vstd::prelude::*;

verus! {

/// How far a push or a drain has come. What is pushed is a chain, given by its first and its
/// last item; a single item is both.
#[derive(Clone, Copy, Debug, PartialEq, Eq, Structural)]
pub enum RemoteTask {
    /// Will load the head.
    PushStart { first: u64, last: u64 },
    /// Will store the link of the last item.
    PushLink { first: u64, last: u64, seen: u64 },
    /// Will exchange the head that was seen.
    PushSwap { first: u64, last: u64, seen: u64 },
    /// Will swap the head for the sentinel.
    Drain,
    /// Has pushed, or has drained the list that starts with the given item.
    Done { drained: Option<u64> },
}

/// The words that tasks share.
pub struct RemoteWords {
    pub head: u64,
    /// The link kept in each item.
    pub next: Map<int, u64>,
}

/// How a list is used: what ends it, and whether a push loads the head again when another
/// task came first, or goes on with the head that the refused exchange returned.
pub struct RemoteUse {
    pub null: u64,
    pub reload: bool,
}

/// The item at a place of a list, or the sentinel.
pub open spec fn item_at(list: Seq<int>, i: int, null: u64) -> int {
    if 0 <= i < list.len() {
        list[i]
    } else {
        null as int
    }
}

/// The items have links, none is the sentinel, and none occurs twice.
pub open spec fn are_items(next: Map<int, u64>, list: Seq<int>, null: u64) -> bool {
    &&& list.no_duplicates()
    &&& forall|i: int|
        0 <= i < list.len() ==> next.dom().contains(#[trigger] list[i]) && list[i] != null
}

/// `head` and the links thread exactly the items of `list`, in order.
pub open spec fn chained(next: Map<int, u64>, head: u64, list: Seq<int>, null: u64) -> bool {
    &&& are_items(next, list, null)
    &&& head == item_at(list, 0, null)
    &&& forall|i: int| 0 <= i < list.len() ==> #[trigger] next[list[i]] == item_at(list, i + 1, null)
}

/// The links thread the items of `chain` from the first to the last; where the last leads is
/// left open.
pub open spec fn is_chain(
    next: Map<int, u64>,
    first: u64,
    last: u64,
    chain: Seq<int>,
    null: u64,
) -> bool {
    &&& chain.len() > 0
    &&& are_items(next, chain, null)
    &&& first == chain[0]
    &&& last == chain.last()
    &&& forall|i: int|
        0 <= i < chain.len() - 1 ==> #[trigger] next[chain[i]] == item_at(chain, i + 1, null)
}

impl RemoteTask {
    /// The next access of a task, and how it goes on.
    pub open spec fn step(self, w: RemoteWords, u: RemoteUse) -> (RemoteWords, RemoteTask) {
        match self {
            RemoteTask::PushStart { first, last } => (
                w,
                RemoteTask::PushLink { first, last, seen: w.head },
            ),
            RemoteTask::PushLink { first, last, seen } => (
                RemoteWords { next: w.next.insert(last as int, seen), ..w },
                RemoteTask::PushSwap { first, last, seen },
            ),
            RemoteTask::PushSwap { first, last, seen } => if w.head == seen {
                (RemoteWords { head: first, ..w }, RemoteTask::Done { drained: None })
            } else if u.reload {
                (w, RemoteTask::PushStart { first, last })
            } else {
                (w, RemoteTask::PushLink { first, last, seen: w.head })
            },
            RemoteTask::Drain => (
                RemoteWords { head: u.null, ..w },
                RemoteTask::Done { drained: Some(w.head) },
            ),
            RemoteTask::Done { drained } => (w, self),
        }
    }

    /// How many accesses a task still makes, if nobody disturbs it.
    pub open spec fn accesses_left(self) -> nat {
        match self {
            RemoteTask::PushStart { first, last } => 3,
            RemoteTask::PushLink { first, last, seen } => 2,
            RemoteTask::PushSwap { first, last, seen } => 1,
            RemoteTask::Drain => 1,
            RemoteTask::Done { drained } => 0,
        }
    }

    /// The items that a task names are among those that have links.
    pub open spec fn names(self, items: Set<int>) -> bool {
        match self {
            RemoteTask::PushStart { first, last } => items.contains(first as int)
                && items.contains(last as int),
            RemoteTask::PushLink { first, last, seen } => items.contains(first as int)
                && items.contains(last as int),
            RemoteTask::PushSwap { first, last, seen } => items.contains(first as int)
                && items.contains(last as int),
            _ => true,
        }
    }

    /// The head that a task has seen is a word of `width` bytes that can be stored.
    pub open spec fn seen_below(self, bound: int) -> bool {
        match self {
            RemoteTask::PushLink { first, last, seen } => seen < bound,
            RemoteTask::PushSwap { first, last, seen } => seen < bound,
            _ => true,
        }
    }
}

impl CachedLayout {
    /// Offsets at which a slot of any class can start.
    pub open spec fn slot_starts(self) -> Set<int> {
        Set::new(
            |off: int|
                self.slabs_offset <= off && off + 256 <= self.end() && (off - self.slabs_offset)
                    % 256 == 0,
        )
    }

    /// The words of a worker's remote free list.
    pub open spec fn remote_words(self, mem: Seq<u8>, worker: int) -> RemoteWords {
        RemoteWords {
            head: u64_at(mem, self.worker_at(worker) + REMOTE_HEAD),
            next: Map::new(
                |off: int| self.slot_starts().contains(off),
                |off: int| u64_at(mem, off),
            ),
        }
    }
}

impl AllocatorBase {
    /// Makes the next access of a task on a worker's remote free list.
    pub fn advance_remote_free(&self, mem: &mut [u8], worker_index: u32, task: RemoteTask) -> (next:
        RemoteTask)
        requires
            self.maps(old(mem)@.len() as int),
            worker_index < self.layout.num_workers,
            task.names(self.layout.slot_starts()),
        ensures
            (self.layout.remote_words(final(mem)@, worker_index as int), next) == task.step(
                self.layout.remote_words(old(mem)@, worker_index as int),
                RemoteUse { null: NULL_U64, reload: false },
            ),
            match task {
                RemoteTask::PushLink { first, last, seen } => same_outside(
                    old(mem)@,
                    final(mem)@,
                    last as int,
                    last + 8,
                ),
                RemoteTask::PushSwap { first, last, seen } => same_outside(
                    old(mem)@,
                    final(mem)@,
                    self.layout.worker_at(worker_index as int) + REMOTE_HEAD,
                    self.layout.worker_at(worker_index as int) + REMOTE_HEAD + 8,
                ),
                RemoteTask::Drain => same_outside(
                    old(mem)@,
                    final(mem)@,
                    self.layout.worker_at(worker_index as int) + REMOTE_HEAD,
                    self.layout.worker_at(worker_index as int) + REMOTE_HEAD + 8,
                ),
                _ => final(mem)@ == old(mem)@,
            },
    {
        let ghost before = mem@;
        let ghost l = self.layout;
        let ghost w = worker_index as int;
        proof {
            l.lemma_bounds();
        }
        let head = self.worker_meta(worker_index).remote_free_head;
        match task {
            RemoteTask::PushStart { first, last } => {
                let seen = load_u64(mem, head);
                RemoteTask::PushLink { first, last, seen }
            },
            RemoteTask::PushLink { first, last, seen } => {
                store_u64(mem, last as usize, seen);
                proof {
                    let a = l.remote_words(before, w);
                    let b = l.remote_words(mem@, w);
                    crate::memory::lemma_word_same(before, mem@, head as int, 8);
                    assert forall|off: int| l.slot_starts().contains(off) && off != last implies
                        u64_at(mem@, off) == u64_at(before, off) by {
                        assert(off + 256 <= last || last + 256 <= off);
                        crate::memory::lemma_word_same(before, mem@, off, 8);
                    }
                    assert(b.next =~= a.next.insert(last as int, seen));
                }
                RemoteTask::PushSwap { first, last, seen }
            },
            RemoteTask::PushSwap { first, last, seen } => {
                let current = load_u64(mem, head);
                if current == seen {
                    store_u64(mem, head, first);
                    proof {
                        self.lemma_head_store(before, mem@, w);
                    }
                    RemoteTask::Done { drained: None }
                } else {
                    RemoteTask::PushLink { first, last, seen: current }
                }
            },
            RemoteTask::Drain => {
                let first = load_u64(mem, head);
                store_u64(mem, head, NULL_U64);
                proof {
                    self.lemma_head_store(before, mem@, w);
                }
                RemoteTask::Done { drained: Some(first) }
            },
            RemoteTask::Done { drained } => task,
        }
    }

    proof fn lemma_head_store(self, a: Seq<u8>, b: Seq<u8>, w: int)
        requires
            self.maps(a.len() as int),
            0 <= w < self.layout.num_workers,
            same_outside(
                a,
                b,
                self.layout.worker_at(w) + REMOTE_HEAD,
                self.layout.worker_at(w) + REMOTE_HEAD + 8,
            ),
        ensures
            self.layout.remote_words(b, w).next == self.layout.remote_words(a, w).next,
    {
        let l = self.layout;
        l.lemma_bounds();
        assert forall|off: int| l.slot_starts().contains(off) implies u64_at(b, off) == u64_at(
            a,
            off,
        ) by {
            crate::memory::lemma_word_same(a, b, off, 8);
        }
        assert(l.remote_words(b, w).next =~= l.remote_words(a, w).next);
    }
}

impl RemoteFreeList {
    /// The words that tasks share.
    pub open spec fn words(self, mem: Seq<u8>) -> RemoteWords {
        RemoteWords {
            head: u16_at(mem, self.head as int) as u64,
            next: Map::new(
                |i: int| 0 <= i < self.capacity,
                |i: int| u16_at(mem, self.slab + i * self.slab_item_size) as u64,
            ),
        }
    }

    /// Makes the next access of a task.
    pub fn advance(&self, mem: &mut [u8], task: RemoteTask) -> (next: RemoteTask)
        requires
            self.wf(old(mem)@.len() as int),
            task.names(Set::new(|i: int| 0 <= i < self.capacity)),
            task.seen_below(0x1_0000),
        ensures
            (self.words(final(mem)@), next) == task.step(
                self.words(old(mem)@),
                RemoteUse { null: NULL_U16 as u64, reload: true },
            ),
            match task {
                RemoteTask::PushLink { first, last, seen } => same_outside(
                    old(mem)@,
                    final(mem)@,
                    self.slab + last * self.slab_item_size,
                    self.slab + last * self.slab_item_size + 2,
                ),
                RemoteTask::PushSwap { first, last, seen } => same_outside(
                    old(mem)@,
                    final(mem)@,
                    self.head as int,
                    self.head + 2,
                ),
                RemoteTask::Drain => same_outside(
                    old(mem)@,
                    final(mem)@,
                    self.head as int,
                    self.head + 2,
                ),
                _ => final(mem)@ == old(mem)@,
            },
            next.seen_below(0x1_0000),
    {
        let ghost before = mem@;
        match task {
            RemoteTask::PushStart { first, last } => {
                let seen = load_u16(mem, self.head) as u64;
                RemoteTask::PushLink { first, last, seen }
            },
            RemoteTask::PushLink { first, last, seen } => {
                proof {
                    lemma_record_within(
                        self.slab as int,
                        self.slab_item_size as int,
                        self.capacity as int,
                        last as int,
                        0,
                        2,
                    );
                }
                let slot = self.slab + last as usize * self.slab_item_size as usize;
                store_u16(mem, slot, seen as u16);
                proof {
                    let a = self.words(before);
                    let b = self.words(mem@);
                    crate::memory::lemma_word_same(before, mem@, self.head as int, 2);
                    assert forall|i: int| 0 <= i < self.capacity && i != last implies b.next[i]
                        == a.next[i] by {
                        self.lemma_other_slot(before, mem@, last as int, i);
                    }
                    assert(b.next =~= a.next.insert(last as int, seen));
                }
                RemoteTask::PushSwap { first, last, seen }
            },
            RemoteTask::PushSwap { first, last, seen } => {
                if load_u16(mem, self.head) as u64 == seen {
                    store_u16(mem, self.head, first as u16);
                    proof {
                        self.lemma_head_store(before, mem@);
                    }
                    RemoteTask::Done { drained: None }
                } else {
                    RemoteTask::PushStart { first, last }
                }
            },
            RemoteTask::Drain => {
                let head = load_u16(mem, self.head);
                store_u16(mem, self.head, NULL_U16);
                proof {
                    self.lemma_head_store(before, mem@);
                }
                RemoteTask::Done { drained: Some(head as u64) }
            },
            RemoteTask::Done { drained } => task,
        }
    }

    proof fn lemma_other_slot(self, a: Seq<u8>, b: Seq<u8>, index: int, i: int)
        requires
            self.wf(a.len() as int),
            0 <= index < self.capacity,
            0 <= i < self.capacity,
            i != index,
            same_outside(
                a,
                b,
                self.slab + index * self.slab_item_size,
                self.slab + index * self.slab_item_size + 2,
            ),
        ensures
            u16_at(b, self.slab + i * self.slab_item_size) == u16_at(
                a,
                self.slab + i * self.slab_item_size,
            ),
    {
        let base = self.slab as int;
        let size = self.slab_item_size as int;
        lemma_record_within(base, size, self.capacity as int, i, 0, 2);
        lemma_record_within(base, size, self.capacity as int, index, 0, 2);
        if i < index {
            lemma_record_apart(base, size, i, index);
        } else {
            lemma_record_apart(base, size, index, i);
        }
        crate::memory::lemma_word_same(a, b, base + i * size, 2);
    }

    proof fn lemma_head_store(self, a: Seq<u8>, b: Seq<u8>)
        requires
            self.wf(a.len() as int),
            same_outside(a, b, self.head as int, self.head + 2),
        ensures
            self.words(b).next == self.words(a).next,
    {
        assert forall|i: int| 0 <= i < self.capacity implies #[trigger] self.words(b).next[i]
            == self.words(a).next[i] by {
            lemma_record_within(
                self.slab as int,
                self.slab_item_size as int,
                self.capacity as int,
                i,
                0,
                2,
            );
            crate::memory::lemma_word_same(a, b, self.slab + i * self.slab_item_size, 2);
        }
        assert(self.words(b).next =~= self.words(a).next);
    }
}

/// Several workers that use a list, and what they hold.
pub struct RemoteSystem {
    pub words: RemoteWords,
    pub mode: RemoteUse,
    /// The items in the list, in order.
    pub list: Seq<int>,
    /// How often the head was exchanged.
    pub count: nat,
    /// The task of each worker.
    pub tasks: Seq<RemoteTask>,
    /// How often the head had been exchanged when the worker's task last loaded it.
    pub since: Seq<nat>,
    /// The items that each worker holds: to use, to push, or drained.
    pub held: Seq<Set<int>>,
    /// The chain that each worker pushes.
    pub chains: Seq<Seq<int>>,
    /// What each worker drained last, in order.
    pub drained: Seq<Seq<int>>,
}

/// What a worker does next.
pub enum RemoteMove {
    /// Writes to an item that it holds, whose first bytes may later serve as a link.
    Write { item: int, word: u64 },
    /// Starts to push a chain of items that it holds.
    Push { chain: Seq<int> },
    /// Starts to drain the list.
    Drain,
    /// Makes the next access of its task.
    Step,
}

impl RemoteSystem {
    /// An item is in the list or held by a worker.
    pub open spec fn has(self, item: int) -> bool {
        self.list.contains(item) || exists|t: int|
            0 <= t < self.held.len() && (#[trigger] self.held[t]).contains(item)
    }

    /// A worker holds all items of a list.
    pub open spec fn holds_all(self, t: int, list: Seq<int>) -> bool {
        forall|i: int| 0 <= i < list.len() ==> self.held[t].contains(#[trigger] list[i])
    }

    /// What holds of a worker's task at all times.
    pub open spec fn task_ok(self, t: int) -> bool {
        match self.tasks[t] {
            RemoteTask::PushStart { first, last } => {
                &&& is_chain(self.words.next, first, last, self.chains[t], self.mode.null)
                &&& self.holds_all(t, self.chains[t])
            },
            RemoteTask::PushLink { first, last, seen } => {
                &&& is_chain(self.words.next, first, last, self.chains[t], self.mode.null)
                &&& self.holds_all(t, self.chains[t])
                &&& self.since[t] <= self.count
                &&& self.since[t] == self.count ==> seen == self.words.head
            },
            RemoteTask::PushSwap { first, last, seen } => {
                &&& is_chain(self.words.next, first, last, self.chains[t], self.mode.null)
                &&& self.holds_all(t, self.chains[t])
                &&& self.words.next[last as int] == seen
                &&& self.since[t] <= self.count
                &&& self.since[t] == self.count ==> seen == self.words.head
            },
            RemoteTask::Drain => true,
            RemoteTask::Done { drained } => drained matches Some(head) ==> {
                &&& chained(self.words.next, head, self.drained[t], self.mode.null)
                &&& self.holds_all(t, self.drained[t])
            },
        }
    }

    /// What holds at all times: the words form the list, and no item is in two places.
    pub open spec fn ok(self) -> bool {
        &&& self.since.len() == self.tasks.len()
        &&& self.held.len() == self.tasks.len()
        &&& self.chains.len() == self.tasks.len()
        &&& self.drained.len() == self.tasks.len()
        &&& chained(self.words.next, self.words.head, self.list, self.mode.null)
        &&& forall|t: int, x: int|
            0 <= t < self.held.len() && #[trigger] self.held[t].contains(x)
                ==> self.words.next.dom().contains(x) && x != self.mode.null && !self.list.contains(
                x,
            )
        &&& forall|t: int, u: int, x: int|
            0 <= t < self.held.len() && 0 <= u < self.held.len() && t != u
                && #[trigger] self.held[t].contains(x) ==> !#[trigger] self.held[u].contains(x)
        &&& forall|t: int| 0 <= t < self.tasks.len() ==> #[trigger] self.task_ok(t)
    }

    /// A worker may make a move: it writes and pushes only what it holds, and only when it is
    /// done with what it did before.
    pub open spec fn allows(self, t: int, m: RemoteMove) -> bool {
        &&& 0 <= t < self.tasks.len()
        &&& match m {
            RemoteMove::Write { item, word } => self.tasks[t] is Done && self.held[t].contains(
                item,
            ),
            RemoteMove::Push { chain } => {
                &&& self.tasks[t] is Done
                &&& 0 <= chain[0] <= u64::MAX
                &&& 0 <= chain.last() <= u64::MAX
                &&& is_chain(
                    self.words.next,
                    chain[0] as u64,
                    chain.last() as u64,
                    chain,
                    self.mode.null,
                )
                &&& self.holds_all(t, chain)
            },
            RemoteMove::Drain => self.tasks[t] is Done,
            RemoteMove::Step => true,
        }
    }

    /// The system after a worker's move.
    pub open spec fn after(self, t: int, m: RemoteMove) -> RemoteSystem {
        match m {
            RemoteMove::Write { item, word } => RemoteSystem {
                words: RemoteWords { next: self.words.next.insert(item, word), ..self.words },
                tasks: self.tasks.update(t, RemoteTask::Done { drained: None }),
                ..self
            },
            RemoteMove::Push { chain } => RemoteSystem {
                tasks: self.tasks.update(
                    t,
                    RemoteTask::PushStart { first: chain[0] as u64, last: chain.last() as u64 },
                ),
                chains: self.chains.update(t, chain),
                ..self
            },
            RemoteMove::Drain => RemoteSystem {
                tasks: self.tasks.update(t, RemoteTask::Drain),
                ..self
            },
            RemoteMove::Step => {
                let (words, task) = self.tasks[t].step(self.words, self.mode);
                let moved = RemoteSystem { words, tasks: self.tasks.update(t, task), ..self };
                match self.tasks[t] {
                    RemoteTask::PushStart { first, last } => RemoteSystem {
                        since: self.since.update(t, self.count),
                        ..moved
                    },
                    RemoteTask::PushSwap { first, last, seen } => if self.words.head == seen {
                        RemoteSystem {
                            list: self.chains[t] + self.list,
                            count: self.count + 1,
                            held: self.held.update(
                                t,
                                self.held[t].difference(self.chains[t].to_set()),
                            ),
                            ..moved
                        }
                    } else {
                        RemoteSystem { since: self.since.update(t, self.count), ..moved }
                    },
                    RemoteTask::Drain => RemoteSystem {
                        list: Seq::empty(),
                        count: self.count + 1,
                        held: self.held.update(t, self.held[t].union(self.list.to_set())),
                        drained: self.drained.update(t, self.list),
                        ..moved
                    },
                    _ => moved,
                }
            },
        }
    }

    /// A worker's access is refused: the head is not the one that its task has seen.
    pub open spec fn refuses(self, t: int) -> bool {
        match self.tasks[t] {
            RemoteTask::PushSwap { first, last, seen } => self.words.head != seen,
            _ => false,
        }
    }

    /// How many accesses a worker makes at most until it is done, if nobody exchanges the head
    /// from now on: those of its task, and three more if the head that it has loaded is gone.
    pub open spec fn ahead(self, t: int) -> nat {
        self.tasks[t].accesses_left() + if self.since[t] < self.count {
            3nat
        } else {
            0
        }
    }

    /// The same for all workers.
    pub open spec fn all_ahead(self) -> Seq<nat> {
        Seq::new(self.tasks.len(), |t: int| self.ahead(t))
    }

    /// All moves of a schedule are accesses of tasks that are not done.
    pub open spec fn busy_all(self, schedule: Seq<(int, RemoteMove)>) -> bool
        decreases schedule.len(),
    {
        schedule.len() == 0 || {
            &&& schedule[0].1 is Step
            &&& !(self.tasks[schedule[0].0] is Done)
            &&& self.after(schedule[0].0, schedule[0].1).busy_all(schedule.drop_first())
        }
    }

    /// All moves of a schedule, one after another, are allowed.
    pub open spec fn allows_all(self, schedule: Seq<(int, RemoteMove)>) -> bool
        decreases schedule.len(),
    {
        schedule.len() == 0 || {
            &&& self.allows(schedule[0].0, schedule[0].1)
            &&& self.after(schedule[0].0, schedule[0].1).allows_all(schedule.drop_first())
        }
    }

    /// The system after a schedule of moves.
    pub open spec fn after_all(self, schedule: Seq<(int, RemoteMove)>) -> RemoteSystem
        decreases schedule.len(),
    {
        if schedule.len() == 0 {
            self
        } else {
            self.after(schedule[0].0, schedule[0].1).after_all(schedule.drop_first())
        }
    }
}

/// Links of items outside a list do not matter to it.
proof fn lemma_chained_frame(
    next: Map<int, u64>,
    head: u64,
    list: Seq<int>,
    null: u64,
    x: int,
    link: u64,
)
    requires
        chained(next, head, list, null),
        !list.contains(x),
    ensures
        chained(next.insert(x, link), head, list, null),
{
    let next2 = next.insert(x, link);
    assert forall|i: int| 0 <= i < list.len() implies #[trigger] next2[list[i]] == item_at(
        list,
        i + 1,
        null,
    ) by {
        assert(list.contains(list[i]));
        assert(next[list[i]] == item_at(list, i + 1, null));
    }
    assert forall|i: int| 0 <= i < list.len() implies next2.dom().contains(#[trigger] list[i])
        && list[i] != null by {
        assert(next.dom().contains(list[i]));
    }
}

/// Links of items outside a chain, and of its last item, do not matter to it.
proof fn lemma_chain_frame(
    next: Map<int, u64>,
    first: u64,
    last: u64,
    chain: Seq<int>,
    null: u64,
    x: int,
    link: u64,
)
    requires
        is_chain(next, first, last, chain, null),
        !chain.contains(x) || x == last,
    ensures
        is_chain(next.insert(x, link), first, last, chain, null),
{
    let next2 = next.insert(x, link);
    assert forall|i: int| 0 <= i < chain.len() - 1 implies #[trigger] next2[chain[i]] == item_at(
        chain,
        i + 1,
        null,
    ) by {
        assert(chain.contains(chain[i]));
        assert(chain[i] != chain[chain.len() - 1]);
        assert(next[chain[i]] == item_at(chain, i + 1, null));
    }
    assert forall|i: int| 0 <= i < chain.len() implies next2.dom().contains(#[trigger] chain[i])
        && chain[i] != null by {
        assert(next.dom().contains(chain[i]));
    }
}

/// A chain whose last item names the head can be put in front.
proof fn lemma_chained_splice(
    next: Map<int, u64>,
    head: u64,
    list: Seq<int>,
    null: u64,
    first: u64,
    last: u64,
    chain: Seq<int>,
)
    requires
        chained(next, head, list, null),
        is_chain(next, first, last, chain, null),
        next[last as int] == head,
        forall|i: int| 0 <= i < chain.len() ==> !list.contains(#[trigger] chain[i]),
    ensures
        chained(next, first, chain + list, null),
        forall|x: int| (chain + list).contains(x) <==> chain.contains(x) || list.contains(x),
{
    let all = chain + list;
    let n = chain.len() as int;
    assert forall|i: int| 0 <= i < all.len() implies next.dom().contains(#[trigger] all[i])
        && all[i] != null by {
        if i < n {
            assert(all[i] == chain[i]);
        } else {
            assert(all[i] == list[i - n]);
        }
    }
    assert forall|i: int| 0 <= i < all.len() implies #[trigger] next[all[i]] == item_at(
        all,
        i + 1,
        null,
    ) by {
        if i < n - 1 {
            assert(all[i] == chain[i]);
            assert(next[chain[i]] == item_at(chain, i + 1, null));
        } else if i == n - 1 {
            if list.len() > 0 {
                assert(all[n] == list[0]);
            }
        } else {
            assert(all[i] == list[i - n]);
            assert(next[list[i - n]] == item_at(list, i - n + 1, null));
        }
    }
    assert(all.no_duplicates()) by {
        assert forall|i: int, j: int|
            0 <= i < all.len() && 0 <= j < all.len() && i != j implies all[i] != all[j] by {
            if i >= n {
                assert(list.contains(list[i - n]));
            }
            if j >= n {
                assert(list.contains(list[j - n]));
            }
            if i < n && j < n {
                assert(chain[i] != chain[j]);
            } else if i >= n && j >= n {
                assert(list[i - n] != list[j - n]);
            } else if i < n {
                assert(!list.contains(chain[i]));
            } else {
                assert(!list.contains(chain[j]));
            }
        }
    }
    assert forall|x: int| all.contains(x) <==> chain.contains(x) || list.contains(x) by {
        if all.contains(x) {
            let i = all.index_of(x);
            if i < n {
                assert(chain[i] == x);
            } else {
                assert(list[i - n] == x);
            }
        }
        if chain.contains(x) {
            let i = chain.index_of(x);
            assert(all[i] == x);
        }
        if list.contains(x) {
            let i = list.index_of(x);
            assert(all[n + i] == x);
        }
    }
}

/// A move of a worker loses no item and duplicates none.
pub proof fn law_remote_move(s: RemoteSystem, t: int, m: RemoteMove)
    requires
        s.ok(),
        s.allows(t, m),
    ensures
        s.after(t, m).ok(),
        forall|x: int| #[trigger] s.after(t, m).has(x) <==> s.has(x),
{
    let a = s.after(t, m);
    assert(s.task_ok(t));
    let w = s.words;
    let null = s.mode.null;
    match m {
        RemoteMove::Write { item, word } => {
            lemma_chained_frame(w.next, w.head, s.list, null, item, word);
        },
        RemoteMove::Step => match s.tasks[t] {
            RemoteTask::PushLink { first, last, seen } => {
                let chain = s.chains[t];
                assert(s.held[t].contains(chain[chain.len() - 1]));
                lemma_chained_frame(w.next, w.head, s.list, null, last as int, seen);
                lemma_chain_frame(w.next, first, last, chain, null, last as int, seen);
            },
            RemoteTask::PushSwap { first, last, seen } => if w.head == seen {
                let chain = s.chains[t];
                assert forall|i: int| 0 <= i < chain.len() implies !s.list.contains(
                    #[trigger] chain[i],
                ) by {
                    assert(s.held[t].contains(chain[i]));
                }
                lemma_chained_splice(w.next, w.head, s.list, null, first, last, chain);
                assert forall|x: int| chain.contains(x) implies s.held[t].contains(x) by {
                    let i = chain.index_of(x);
                    assert(s.held[t].contains(chain[i]));
                }
            },
            RemoteTask::Drain => {
                assert forall|x: int| s.list.contains(x) implies w.next.dom().contains(x) && x
                    != null by {
                    let j = s.list.index_of(x);
                    assert(w.next.dom().contains(s.list[j]));
                }
            },
            _ => {},
        },
        _ => {},
    }
    assert forall|x: int| #[trigger] a.has(x) <==> s.has(x) by {
        lemma_remote_has(s, a, t, x);
    }
    assert forall|u: int, v: int, x: int|
        0 <= u < a.held.len() && 0 <= v < a.held.len() && u != v && #[trigger] a.held[u].contains(
            x,
        ) implies !#[trigger] a.held[v].contains(x) by {
        if u != t {
            assert(s.held[u].contains(x));
        }
        if v != t {
            assert(a.held[v] == s.held[v]);
        }
        if s.list.contains(x) && v != t && s.held[v].contains(x) {
            assert(false);
        }
    }
    assert forall|u: int| 0 <= u < a.tasks.len() implies #[trigger] a.task_ok(u) by {
        assert(s.task_ok(u));
        if u != t {
            lemma_remote_other(s, a, t, u);
        } else if m is Step && s.tasks[t] is Drain {
            assert forall|i: int| 0 <= i < a.drained[t].len() implies a.held[t].contains(
                #[trigger] a.drained[t][i],
            ) by {
                assert(s.list.contains(s.list[i]));
            }
        }
    }
}

/// Where the items are after a move.
proof fn lemma_remote_has(s: RemoteSystem, a: RemoteSystem, t: int, x: int)
    requires
        0 <= t < s.held.len(),
        a.held.len() == s.held.len(),
        forall|u: int| 0 <= u < s.held.len() && u != t ==> #[trigger] a.held[u] == s.held[u],
        a.list.contains(x) || a.held[t].contains(x) <==> s.list.contains(x) || s.held[t].contains(x),
    ensures
        a.has(x) <==> s.has(x),
{
    if s.has(x) && !s.list.contains(x) {
        let u = choose|u: int| 0 <= u < s.held.len() && (#[trigger] s.held[u]).contains(x);
        if u != t {
            assert(a.held[u].contains(x));
        } else if !a.list.contains(x) {
            assert(a.held[t].contains(x));
        }
    }
    if a.has(x) && !a.list.contains(x) {
        let u = choose|u: int| 0 <= u < a.held.len() && (#[trigger] a.held[u]).contains(x);
        if u != t {
            assert(s.held[u].contains(x));
        } else if !s.list.contains(x) {
            assert(s.held[t].contains(x));
        }
    }
    if s.list.contains(x) && !a.list.contains(x) {
        assert(a.held[t].contains(x));
    }
    if a.list.contains(x) && !s.list.contains(x) {
        assert(s.held[t].contains(x));
    }
}

/// A move of one worker does not disturb the tasks of the others, nor what they drained.
proof fn lemma_remote_other(s: RemoteSystem, a: RemoteSystem, t: int, u: int)
    requires
        s.ok(),
        s.task_ok(u),
        0 <= t < s.tasks.len(),
        0 <= u < s.tasks.len(),
        t != u,
        a.mode == s.mode,
        a.tasks[u] == s.tasks[u],
        a.since[u] == s.since[u],
        a.count == s.count && a.words.head == s.words.head || a.count == s.count + 1,
        a.held[u] == s.held[u],
        a.chains[u] == s.chains[u],
        a.drained[u] == s.drained[u],
        a.words.next == s.words.next || exists|x: int, link: u64|
            s.held[t].contains(x) && a.words.next == #[trigger] s.words.next.insert(x, link),
    ensures
        a.task_ok(u),
{
    if a.words.next != s.words.next {
        let (x, link) = choose|x: int, link: u64|
            s.held[t].contains(x) && a.words.next == #[trigger] s.words.next.insert(x, link);
        let null = s.mode.null;
        let next = s.words.next;
        let chain = s.chains[u];
        let list = s.drained[u];
        match s.tasks[u] {
            RemoteTask::PushStart { first, last } => {
                lemma_not_held(s, t, u, chain, x);
                lemma_chain_frame(next, first, last, chain, null, x, link);
            },
            RemoteTask::PushLink { first, last, seen } => {
                lemma_not_held(s, t, u, chain, x);
                lemma_chain_frame(next, first, last, chain, null, x, link);
            },
            RemoteTask::PushSwap { first, last, seen } => {
                lemma_not_held(s, t, u, chain, x);
                assert(chain.contains(chain[chain.len() - 1]));
                lemma_chain_frame(next, first, last, chain, null, x, link);
            },
            RemoteTask::Done { drained } => {
                if let Some(head) = drained {
                    lemma_not_held(s, t, u, list, x);
                    lemma_chained_frame(next, head, list, null, x, link);
                }
            },
            _ => {},
        }
    }
}

/// What one worker holds is not among the items of another.
proof fn lemma_not_held(s: RemoteSystem, t: int, u: int, list: Seq<int>, x: int)
    requires
        s.ok(),
        0 <= t < s.held.len(),
        0 <= u < s.held.len(),
        t != u,
        s.held[t].contains(x),
        s.holds_all(u, list),
    ensures
        !list.contains(x),
{
    if list.contains(x) {
        let i = list.index_of(x);
        assert(s.held[u].contains(list[i]));
    }
}

/// Whatever the order in which workers take their steps, no item is lost and none is drained
/// twice: each is in the list or held by one worker, as it was before. What a worker has
/// drained stays linked in order until it goes on to something else.
pub proof fn law_no_free_lost(s: RemoteSystem, schedule: Seq<(int, RemoteMove)>)
    requires
        s.ok(),
        s.allows_all(schedule),
    ensures
        s.after_all(schedule).ok(),
        forall|x: int| #[trigger] s.after_all(schedule).has(x) <==> s.has(x),
    decreases schedule.len(),
{
    if schedule.len() > 0 {
        let (t, m) = schedule[0];
        let next = s.after(t, m);
        law_remote_move(s, t, m);
        law_no_free_lost(next, schedule.drop_first());
        assert forall|x: int| #[trigger] s.after_all(schedule).has(x) <==> s.has(x) by {
            assert(next.after_all(schedule.drop_first()).has(x) <==> next.has(x));
            assert(next.has(x) <==> s.has(x));
        }
    }
}

/// An exchange is refused only if another worker exchanged the head since the refused worker
/// loaded it.
pub proof fn law_remote_refused_by_progress(s: RemoteSystem, t: int)
    requires
        s.ok(),
        0 <= t < s.tasks.len(),
        s.refuses(t),
    ensures
        s.count > s.since[t],
        s.after(t, RemoteMove::Step).tasks[t] is PushStart || s.after(
            t,
            RemoteMove::Step,
        ).tasks[t] is PushLink,
        s.after(t, RemoteMove::Step).words == s.words,
{
    assert(s.task_ok(t));
}

/// An access of an unfinished task exchanges the head, or brings its worker nearer to the end.
proof fn lemma_remote_ahead(s: RemoteSystem, t: int)
    requires
        s.ok(),
        s.allows(t, RemoteMove::Step),
        !(s.tasks[t] is Done),
    ensures
        ({
            let a = s.after(t, RemoteMove::Step);
            &&& s.count <= a.count
            &&& a.count == s.count ==> sum(a.all_ahead()) < sum(s.all_ahead())
        }),
{
    let a = s.after(t, RemoteMove::Step);
    assert(s.task_ok(t));
    if s.refuses(t) {
        law_remote_refused_by_progress(s, t);
    }
    if a.count == s.count {
        assert(a.ahead(t) < s.ahead(t));
        lemma_sum_less(s.all_ahead(), a.all_ahead(), t);
    }
}

proof fn lemma_remote_busy(s: RemoteSystem, schedule: Seq<(int, RemoteMove)>)
    requires
        s.ok(),
        s.allows_all(schedule),
        s.busy_all(schedule),
    ensures
        s.after_all(schedule).count >= s.count,
        s.after_all(schedule).count == s.count ==> schedule.len() <= sum(s.all_ahead()),
    decreases schedule.len(),
{
    if schedule.len() > 0 {
        let (t, m) = schedule[0];
        law_remote_move(s, t, m);
        lemma_remote_ahead(s, t);
        lemma_remote_busy(s.after(t, m), schedule.drop_first());
    }
}

/// The list is lock-free: whatever the order in which workers take their steps, and whoever of
/// them stands still, once six accesses for each worker and one more have been made on behalf
/// of pushes and drains under way, one of these has taken effect.
pub proof fn law_remote_lock_free(s: RemoteSystem, schedule: Seq<(int, RemoteMove)>)
    requires
        s.ok(),
        s.allows_all(schedule),
        s.busy_all(schedule),
        schedule.len() > 6 * s.tasks.len(),
    ensures
        s.after_all(schedule).count > s.count,
{
    lemma_remote_busy(s, schedule);
    lemma_sum_bound(s.all_ahead(), 6);
}

/// A push that nobody disturbs puts its chain in front of the list, in order.
pub proof fn law_remote_push_undisturbed(
    w: RemoteWords,
    u: RemoteUse,
    list: Seq<int>,
    first: u64,
    last: u64,
    chain: Seq<int>,
)
    requires
        chained(w.next, w.head, list, u.null),
        is_chain(w.next, first, last, chain, u.null),
        forall|i: int| 0 <= i < chain.len() ==> !list.contains(#[trigger] chain[i]),
    ensures
        ({
            let (w1, t1) = (RemoteTask::PushStart { first, last }).step(w, u);
            let (w2, t2) = t1.step(w1, u);
            let (w3, t3) = t2.step(w2, u);
            &&& t3 == (RemoteTask::Done { drained: None })
            &&& chained(w3.next, w3.head, chain + list, u.null)
            &&& w3.head == first
            &&& forall|x: int| x != last ==> #[trigger] w3.next[x] == w.next[x]
        }),
{
    let linked = w.next.insert(last as int, w.head);
    assert(!list.contains(chain[chain.len() - 1]));
    lemma_chained_frame(w.next, w.head, list, u.null, last as int, w.head);
    lemma_chain_frame(w.next, first, last, chain, u.null, last as int, w.head);
    lemma_chained_splice(linked, w.head, list, u.null, first, last, chain);
}

/// A drain takes the whole list in one access, in order, and leaves it empty.
pub proof fn law_drain_takes_all(w: RemoteWords, u: RemoteUse, list: Seq<int>)
    requires
        chained(w.next, w.head, list, u.null),
    ensures
        ({
            let (after, task) = RemoteTask::Drain.step(w, u);
            &&& task matches RemoteTask::Done { drained: Some(head) } && chained(
                after.next,
                head,
                list,
                u.null,
            )
            &&& after.next == w.next
            &&& chained(after.next, after.head, Seq::empty(), u.null)
        }),
{
}

/// Workers that do nothing yet, and hold different items that are not in the list, can start:
/// each may drain the list, push a chain of what it holds, or write to it.
pub proof fn law_remote_start(s: RemoteSystem, t: int, chain: Seq<int>, item: int, word: u64)
    requires
        chained(s.words.next, s.words.head, s.list, s.mode.null),
        s.since.len() == s.tasks.len(),
        s.held.len() == s.tasks.len(),
        s.chains.len() == s.tasks.len(),
        s.drained.len() == s.tasks.len(),
        forall|u: int|
            0 <= u < s.tasks.len() ==> #[trigger] s.tasks[u] == (RemoteTask::Done {
                drained: None,
            }),
        forall|u: int, x: int|
            0 <= u < s.held.len() && #[trigger] s.held[u].contains(x) ==> s.words.next.dom().contains(
                x,
            ) && x != s.mode.null && !s.list.contains(x),
        forall|u: int, v: int, x: int|
            0 <= u < s.held.len() && 0 <= v < s.held.len() && u != v
                && #[trigger] s.held[u].contains(x) ==> !#[trigger] s.held[v].contains(x),
        0 <= t < s.tasks.len(),
        chain.len() > 0,
        0 <= chain[0] <= u64::MAX,
        0 <= chain.last() <= u64::MAX,
    ensures
        s.ok(),
        s.allows(t, RemoteMove::Drain),
        s.held[t].contains(item) ==> s.allows(t, RemoteMove::Write { item, word }),
        is_chain(
            s.words.next,
            chain[0] as u64,
            chain.last() as u64,
            chain,
            s.mode.null,
        ) && s.holds_all(t, chain) ==> s.allows(t, RemoteMove::Push { chain }),
{
    assert forall|u: int| 0 <= u < s.tasks.len() implies #[trigger] s.task_ok(u) by {
        let _ = s.tasks[u];
    }
}

/// A worker may go on at any time; it makes the next access of its task, and no other worker's
/// task moves.
pub proof fn law_remote_go_on(s: RemoteSystem, t: int, u: int)
    requires
        s.ok(),
        0 <= t < s.tasks.len(),
        0 <= u < s.tasks.len(),
    ensures
        s.allows(t, RemoteMove::Step),
        (s.after(t, RemoteMove::Step).words, s.after(t, RemoteMove::Step).tasks[t])
            == s.tasks[t].step(s.words, s.mode),
        u != t ==> s.after(t, RemoteMove::Step).tasks[u] == s.tasks[u] && s.after(
            t,
            RemoteMove::Step,
        ).held[u] == s.held[u],
{
}

/// A drain leaves all items of the list to the worker that drained it, in order, and a push that
/// ends has put its chain in front of the list.
pub proof fn law_remote_outcome(s: RemoteSystem, t: int)
    requires
        s.ok(),
        0 <= t < s.tasks.len(),
    ensures
        ({
            let a = s.after(t, RemoteMove::Step);
            match s.tasks[t] {
                RemoteTask::Drain => {
                    &&& a.tasks[t] == (RemoteTask::Done { drained: Some(s.words.head) })
                    &&& a.list.len() == 0
                    &&& a.drained[t] == s.list
                    &&& a.held[t] == s.held[t].union(s.list.to_set())
                },
                RemoteTask::PushSwap { first, last, seen } => {
                    &&& seen == s.words.head ==> {
                        &&& a.tasks[t] == (RemoteTask::Done { drained: None })
                        &&& a.list == s.chains[t] + s.list
                        &&& a.held[t] == s.held[t].difference(s.chains[t].to_set())
                    }
                    &&& seen != s.words.head ==> !(a.tasks[t] is Done) && a.list == s.list
                },
                RemoteTask::Done { drained } => a.tasks[t] == s.tasks[t] && a.words == s.words,
                _ => a.list == s.list && a.held == s.held && !(a.tasks[t] is Done),
            }
        }),
{
}

/// At all times the task of each worker names items that have links.
pub proof fn law_remote_tasks_named(s: RemoteSystem, t: int)
    requires
        s.ok(),
        0 <= t < s.tasks.len(),
    ensures
        s.tasks[t].names(s.words.next.dom()),
{
    assert(s.task_ok(t));
    let chain = s.chains[t];
    if s.tasks[t] is PushStart || s.tasks[t] is PushLink || s.tasks[t] is PushSwap {
        assert(s.words.next.dom().contains(chain[0]));
        assert(s.words.next.dom().contains(chain[chain.len() - 1]));
    }
}

} // verus!
