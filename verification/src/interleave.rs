//! The global free list under concurrent use.
//!
//! A push or pop is a task that makes one access to the shared words at a time: a load, a
//! store, or a compare-exchange of the head. Tasks of several workers may take their steps in
//! any order. What is shown here is that they never lose or duplicate a slab, as long as no
//! worker sleeps through a whole cycle of generations between reading the head and exchanging
//! it; and that no worker keeps the others from getting on.
use crate::global_free_list::{
    generation_of, index_of, next_generation, pop_attempt, push_attempt, tagged, unpack_index,
    GlobalFreeList,
};
use crate::header::layout::NODE_SIZE;
use crate::index::NULL_U32;
use crate::linked_list_node::GLOBAL_NEXT;
use crate::links::linked;
use crate::memory::{load_u32, load_u64, same_outside, store_u32, store_u64, u64_at};
use crate::records::{record, record_offset};
use vstd::prelude::*;

verus! {

/// How far a push or pop has come.
#[derive(Clone, Copy, Debug, PartialEq, Eq, Structural)]
pub enum Task {
    /// Will load the head.
    PushStart { slab: u32 },
    /// Will store the link of the slab to be pushed.
    PushLink { slab: u32, seen: u64 },
    /// Will exchange the head that was seen.
    PushSwap { slab: u32, seen: u64 },
    /// Will load the head.
    PopStart,
    /// Will load the link of the slab that the head named.
    PopRead { seen: u64 },
    /// Will exchange the head that was seen.
    PopSwap { seen: u64, next: u32 },
    /// Will clear the link of the popped slab.
    PopClear { slab: u32 },
    /// Has pushed a slab, or popped one, or found the list empty.
    Done { popped: Option<u32> },
}

/// The words that tasks share.
pub struct Words {
    pub head: u64,
    pub next: Seq<u32>,
}

/// The head that takes the place of the one that was seen.
pub open spec fn new_head(seen: u64, index: u32) -> u64 {
    tagged(next_generation(generation_of(seen)), index)
}

impl Task {
    /// The next access of a task, and how it goes on. Where the list `clears` links, that of a
    /// popped slab is cleared at last.
    pub open spec fn step(self, w: Words, clears: bool) -> (Words, Task) {
        match self {
            Task::PushStart { slab } => (w, Task::PushLink { slab, seen: w.head }),
            Task::PushLink { slab, seen } => (
                Words { next: w.next.update(slab as int, index_of(seen)), ..w },
                Task::PushSwap { slab, seen },
            ),
            Task::PushSwap { slab, seen } => if w.head == seen {
                (
                    Words { head: new_head(seen, slab), ..w },
                    Task::Done { popped: None },
                )
            } else {
                (w, Task::PushStart { slab })
            },
            Task::PopStart => if index_of(w.head) == NULL_U32 {
                (w, Task::Done { popped: None })
            } else {
                (w, Task::PopRead { seen: w.head })
            },
            Task::PopRead { seen } => (
                w,
                Task::PopSwap { seen, next: w.next[index_of(seen) as int] },
            ),
            Task::PopSwap { seen, next } => if w.head == seen {
                (
                    Words { head: new_head(seen, next), ..w },
                    if clears {
                        Task::PopClear { slab: index_of(seen) }
                    } else {
                        Task::Done { popped: Some(index_of(seen)) }
                    },
                )
            } else {
                (w, Task::PopStart)
            },
            Task::PopClear { slab } => (
                Words { next: w.next.update(slab as int, NULL_U32), ..w },
                Task::Done { popped: Some(slab) },
            ),
            Task::Done { popped } => (w, self),
        }
    }

    /// How many accesses a task still makes, if nobody disturbs it.
    pub open spec fn accesses_left(self) -> nat {
        match self {
            Task::PushStart { slab } => 3,
            Task::PushLink { slab, seen } => 2,
            Task::PushSwap { slab, seen } => 1,
            Task::PopStart => 4,
            Task::PopRead { seen } => 3,
            Task::PopSwap { seen, next } => 2,
            Task::PopClear { slab } => 1,
            Task::Done { popped } => 0,
        }
    }

    /// The slabs that a task names are slabs of a list with `len` of them.
    pub open spec fn names(self, len: int) -> bool {
        match self {
            Task::PushStart { slab } => slab < len,
            Task::PushLink { slab, seen } => slab < len,
            Task::PushSwap { slab, seen } => slab < len,
            Task::PopRead { seen } => index_of(seen) < len,
            Task::PopSwap { seen, next } => index_of(seen) < len,
            Task::PopClear { slab } => slab < len,
            _ => true,
        }
    }
}

impl GlobalFreeList {
    /// The words that tasks share.
    pub open spec fn words(self, mem: Seq<u8>) -> Words {
        Words { head: u64_at(mem, self.head as int), next: self.nexts(mem) }
    }

    /// The offset of the link of a slab.
    pub open spec fn link_of(self, slab: int) -> int {
        record(self.list.offset as int, NODE_SIZE as int, slab, GLOBAL_NEXT as int)
    }

    /// Makes the next access of a task.
    pub fn advance(&self, mem: &mut [u8], task: Task) -> (next: Task)
        requires
            self.wf(old(mem)@.len() as int),
            task.names(self.list.len as int),
        ensures
            (self.words(final(mem)@), next) == task.step(self.words(old(mem)@), true),
            match task {
                Task::PushLink { slab, seen } => same_outside(
                    old(mem)@,
                    final(mem)@,
                    self.link_of(slab as int),
                    self.link_of(slab as int) + 4,
                ),
                Task::PopClear { slab } => same_outside(
                    old(mem)@,
                    final(mem)@,
                    self.link_of(slab as int),
                    self.link_of(slab as int) + 4,
                ),
                Task::PushSwap { slab, seen } => same_outside(
                    old(mem)@,
                    final(mem)@,
                    self.head as int,
                    self.head + 8,
                ),
                Task::PopSwap { seen, next } => same_outside(
                    old(mem)@,
                    final(mem)@,
                    self.head as int,
                    self.head + 8,
                ),
                _ => final(mem)@ == old(mem)@,
            },
    {
        let ghost before = mem@;
        match task {
            Task::PushStart { slab } => {
                let seen = load_u64(mem, self.head);
                Task::PushLink { slab, seen }
            },
            Task::PushLink { slab, seen } => {
                let link = self.link_at(slab);
                let (next, _) = push_attempt(seen, slab);
                store_u32(mem, link, next);
                proof {
                    self.lemma_link_store(before, mem@, slab as int);
                }
                Task::PushSwap { slab, seen }
            },
            Task::PushSwap { slab, seen } => {
                if load_u64(mem, self.head) == seen {
                    let (_, new_head) = push_attempt(seen, slab);
                    store_u64(mem, self.head, new_head);
                    proof {
                        self.lemma_head_store(before, mem@);
                    }
                    Task::Done { popped: None }
                } else {
                    Task::PushStart { slab }
                }
            },
            Task::PopStart => {
                let seen = load_u64(mem, self.head);
                let (_, index) = unpack_index(seen);
                if index == NULL_U32 {
                    Task::Done { popped: None }
                } else {
                    Task::PopRead { seen }
                }
            },
            Task::PopRead { seen } => {
                let (_, index) = unpack_index(seen);
                let next = load_u32(mem, self.link_at(index));
                Task::PopSwap { seen, next }
            },
            Task::PopSwap { seen, next } => {
                if load_u64(mem, self.head) == seen {
                    let (_, index) = unpack_index(seen);
                    store_u64(mem, self.head, pop_attempt(seen, next));
                    proof {
                        self.lemma_head_store(before, mem@);
                    }
                    Task::PopClear { slab: index }
                } else {
                    Task::PopStart
                }
            },
            Task::PopClear { slab } => {
                let link = self.link_at(slab);
                store_u32(mem, link, NULL_U32);
                proof {
                    self.lemma_link_store(before, mem@, slab as int);
                }
                Task::Done { popped: Some(slab) }
            },
            Task::Done { popped } => task,
        }
    }

    fn link_at(&self, slab: u32) -> (link: usize)
        requires
            self.list.end() <= usize::MAX,
            slab < self.list.len,
        ensures
            link == self.link_of(slab as int),
            self.list.offset <= link,
            link + 4 <= self.list.end(),
    {
        record_offset(
            self.list.offset,
            NODE_SIZE,
            slab as usize,
            GLOBAL_NEXT,
            Ghost(self.list.len as int),
        )
    }

    proof fn lemma_link_store(self, a: Seq<u8>, b: Seq<u8>, slab: int)
        requires
            self.wf(a.len() as int),
            0 <= slab < self.list.len,
            same_outside(a, b, self.link_of(slab), self.link_of(slab) + 4),
        ensures
            self.words(b).head == self.words(a).head,
            self.words(b).next == self.words(a).next.update(slab, self.words(b).next[slab]),
    {
        crate::records::lemma_record_within(
            self.list.offset as int,
            NODE_SIZE as int,
            self.list.len as int,
            slab,
            GLOBAL_NEXT as int,
            4,
        );
        crate::memory::lemma_word_same(a, b, self.head as int, 8);
        crate::records::lemma_record_frame(
            a,
            b,
            self.list.offset as int,
            NODE_SIZE as int,
            self.list.len as int,
            slab,
            GLOBAL_NEXT as int,
            4,
        );
        assert(self.words(b).next =~= self.words(a).next.update(slab, self.words(b).next[slab]));
    }

    proof fn lemma_head_store(self, a: Seq<u8>, b: Seq<u8>)
        requires
            self.wf(a.len() as int),
            same_outside(a, b, self.head as int, self.head + 8),
        ensures
            self.words(b).next == self.words(a).next,
    {
        crate::records::lemma_table_frame(
            a,
            b,
            self.list.offset as int,
            NODE_SIZE as int,
            self.list.len as int,
            self.head as int,
            self.head + 8,
        );
        assert(self.words(b).next =~= self.words(a).next);
    }
}

/// Several workers that use the list, and what they hold.
pub struct System {
    /// Whether the list clears the links of popped slabs.
    pub clears: bool,
    pub words: Words,
    /// The slabs in the list, in order.
    pub list: Seq<u32>,
    /// How often the head was exchanged.
    pub count: nat,
    /// The task of each worker.
    pub tasks: Seq<Task>,
    /// How often the head had been exchanged when the worker's task last loaded it.
    pub since: Seq<nat>,
    /// The slabs that each worker holds.
    pub held: Seq<Set<u32>>,
}

/// What a worker does next.
pub enum Move {
    /// Starts to push a slab that it holds.
    Push { slab: u32 },
    /// Starts to pop a slab.
    Pop,
    /// Makes the next access of its task.
    Step,
}

impl System {
    /// A slab is in the list or held by a worker.
    pub open spec fn has(self, slab: u32) -> bool {
        self.list.contains(slab) || exists|t: int|
            0 <= t < self.held.len() && (#[trigger] self.held[t]).contains(slab)
    }

    /// What holds of a worker's task at all times.
    pub open spec fn task_ok(self, t: int) -> bool {
        match self.tasks[t] {
            Task::PushStart { slab } => self.held[t].contains(slab),
            Task::PushLink { slab, seen } => {
                &&& self.held[t].contains(slab)
                &&& self.since[t] <= self.count
                &&& self.since[t] == self.count ==> seen == self.words.head
            },
            Task::PushSwap { slab, seen } => {
                &&& self.held[t].contains(slab)
                &&& self.words.next[slab as int] == index_of(seen)
                &&& self.since[t] <= self.count
                &&& self.since[t] == self.count ==> seen == self.words.head
            },
            Task::PopStart => true,
            Task::PopRead { seen } => {
                &&& index_of(seen) < self.words.next.len()
                &&& self.since[t] <= self.count
                &&& generation_of(seen) == generation_at(self.since[t])
                &&& self.since[t] == self.count ==> seen == self.words.head
            },
            Task::PopSwap { seen, next } => {
                &&& index_of(seen) < self.words.next.len()
                &&& self.since[t] <= self.count
                &&& generation_of(seen) == generation_at(self.since[t])
                &&& self.since[t] == self.count ==> seen == self.words.head && next
                    == self.words.next[index_of(seen) as int]
            },
            Task::PopClear { slab } => self.clears && self.held[t].contains(slab),
            Task::Done { popped } => true,
        }
    }

    /// What holds at all times: the words form the list, and no slab is in two places.
    pub open spec fn ok(self) -> bool {
        &&& self.since.len() == self.tasks.len()
        &&& self.held.len() == self.tasks.len()
        &&& linked(self.words.next, index_of(self.words.head), self.list)
        &&& generation_of(self.words.head) == generation_at(self.count)
        &&& forall|t: int, x: u32|
            0 <= t < self.held.len() && #[trigger] self.held[t].contains(x) ==> x
                < self.words.next.len() && !self.list.contains(x)
        &&& forall|t: int, u: int, x: u32|
            0 <= t < self.held.len() && 0 <= u < self.held.len() && t != u
                && #[trigger] self.held[t].contains(x) ==> !#[trigger] self.held[u].contains(x)
        &&& forall|t: int| 0 <= t < self.tasks.len() ==> #[trigger] self.task_ok(t)
    }

    /// A worker may make a move: it starts to push only what it holds, and only when it is
    /// done with what it did before; and it has not slept through a cycle of generations.
    pub open spec fn allows(self, t: int, m: Move) -> bool {
        &&& 0 <= t < self.tasks.len()
        &&& match m {
            Move::Push { slab } => self.tasks[t] is Done && self.held[t].contains(slab),
            Move::Pop => self.tasks[t] is Done,
            Move::Step => self.count - self.since[t] < 0x1_0000_0000,
        }
    }

    /// The system after a worker's move.
    pub open spec fn after(self, t: int, m: Move) -> System {
        match m {
            Move::Push { slab } => System {
                tasks: self.tasks.update(t, Task::PushStart { slab }),
                since: self.since.update(t, self.count),
                ..self
            },
            Move::Pop => System {
                tasks: self.tasks.update(t, Task::PopStart),
                since: self.since.update(t, self.count),
                ..self
            },
            Move::Step => {
                let (words, task) = self.tasks[t].step(self.words, self.clears);
                let moved = System { words, tasks: self.tasks.update(t, task), ..self };
                match self.tasks[t] {
                    Task::PushStart { slab } => System {
                        since: self.since.update(t, self.count),
                        ..moved
                    },
                    Task::PopStart => System {
                        since: self.since.update(t, self.count),
                        ..moved
                    },
                    Task::PushSwap { slab, seen } => if self.words.head == seen {
                        System {
                            list: seq![slab] + self.list,
                            count: self.count + 1,
                            held: self.held.update(t, self.held[t].remove(slab)),
                            ..moved
                        }
                    } else {
                        System { since: self.since.update(t, self.count), ..moved }
                    },
                    Task::PopSwap { seen, next } => if self.words.head == seen {
                        System {
                            list: self.list.drop_first(),
                            count: self.count + 1,
                            held: self.held.update(t, self.held[t].insert(index_of(seen))),
                            ..moved
                        }
                    } else {
                        System { since: self.since.update(t, self.count), ..moved }
                    },
                    _ => moved,
                }
            },
        }
    }

    /// A worker's access is refused: the head is not the one that its task has seen, and the
    /// task starts again.
    pub open spec fn refuses(self, t: int) -> bool {
        match self.tasks[t] {
            Task::PushSwap { slab, seen } => self.words.head != seen,
            Task::PopSwap { seen, next } => self.words.head != seen,
            _ => false,
        }
    }

    /// How many accesses a worker makes at most until it is done, if nobody exchanges the head
    /// from now on: those of its task, and three more if the head that it has loaded is gone.
    pub open spec fn ahead(self, t: int) -> nat {
        self.tasks[t].accesses_left() + if self.since[t] < self.count {
            3nat
        } else {
            0
        }
    }

    /// The same for all workers.
    pub open spec fn all_ahead(self) -> Seq<nat> {
        Seq::new(self.tasks.len(), |t: int| self.ahead(t))
    }

    /// All moves of a schedule are accesses of tasks that are not done.
    pub open spec fn busy_all(self, schedule: Seq<(int, Move)>) -> bool
        decreases schedule.len(),
    {
        schedule.len() == 0 || {
            &&& schedule[0].1 is Step
            &&& !(self.tasks[schedule[0].0] is Done)
            &&& self.after(schedule[0].0, schedule[0].1).busy_all(schedule.drop_first())
        }
    }

    /// All moves of a schedule, one after another, are allowed.
    pub open spec fn allows_all(self, schedule: Seq<(int, Move)>) -> bool
        decreases schedule.len(),
    {
        schedule.len() == 0 || {
            &&& self.allows(schedule[0].0, schedule[0].1)
            &&& self.after(schedule[0].0, schedule[0].1).allows_all(schedule.drop_first())
        }
    }

    /// The system after a schedule of moves.
    pub open spec fn after_all(self, schedule: Seq<(int, Move)>) -> System
        decreases schedule.len(),
    {
        if schedule.len() == 0 {
            self
        } else {
            self.after(schedule[0].0, schedule[0].1).after_all(schedule.drop_first())
        }
    }
}

/// The generation of a head that was exchanged `count` times, starting from generation zero.
pub open spec fn generation_at(count: nat) -> u32 {
    (count % 0x1_0000_0000) as u32
}

proof fn lemma_generation(count: nat)
    ensures
        generation_at(count + 1) == next_generation(generation_at(count)),
{
}

proof fn lemma_new_head(seen: u64, index: u32)
    ensures
        index_of(new_head(seen, index)) == index,
        generation_of(new_head(seen, index)) == next_generation(generation_of(seen)),
{
    crate::global_free_list::law_pack_round_trip(
        next_generation(generation_of(seen)),
        index,
        seen,
    );
}

/// Two counts less than a cycle apart with the same generation are the same.
proof fn lemma_same_generation(a: nat, b: nat)
    requires
        a <= b,
        b - a < 0x1_0000_0000,
        generation_at(a) == generation_at(b),
    ensures
        a == b,
{
}

/// At all times the task of each worker names slabs of the list, and clears a link only where
/// the list clears links.
pub proof fn law_tasks_named(s: System, t: int)
    requires
        s.ok(),
        0 <= t < s.tasks.len(),
    ensures
        s.tasks[t].names(s.words.next.len() as int),
        s.tasks[t] is PopClear ==> s.clears,
{
    assert(s.task_ok(t));
}

/// A move of a worker loses no slab and duplicates none.
pub proof fn law_move(s: System, t: int, m: Move)
    requires
        s.ok(),
        s.allows(t, m),
    ensures
        s.after(t, m).ok(),
        forall|x: u32| #[trigger] s.after(t, m).has(x) <==> s.has(x),
{
    let a = s.after(t, m);
    assert(s.task_ok(t));
    lemma_generation(s.count);
    let w = s.words;
    if m is Step {
        match s.tasks[t] {
            Task::PushSwap { slab, seen } => if w.head == seen {
                let list2 = seq![slab] + s.list;
                lemma_new_head(seen, slab);
                crate::links::lemma_linked_push(w.next, index_of(w.head), s.list, slab);
                assert(w.next.update(slab as int, index_of(w.head)) =~= w.next);
                assert forall|x: u32| list2.contains(x) <==> x == slab || s.list.contains(x) by {
                    if list2.contains(x) && x != slab {
                        let j = list2.index_of(x);
                        assert(s.list[j - 1] == x);
                    }
                    if s.list.contains(x) {
                        let j = s.list.index_of(x);
                        assert(list2[j + 1] == x);
                    }
                    if x == slab {
                        assert(list2[0] == x);
                    }
                }
            },
            Task::PopSwap { seen, next } => if w.head == seen {
                let slab = index_of(seen);
                let list2 = s.list.drop_first();
                lemma_new_head(seen, next);
                lemma_same_generation(s.since[t], s.count);
                crate::links::lemma_linked_pop(w.next, index_of(w.head), s.list);
                crate::links::lemma_linked_frame(
                    w.next.update(slab as int, NULL_U32),
                    w.next,
                    next,
                    list2,
                );
                assert forall|x: u32| s.list.contains(x) <==> x == slab || list2.contains(x) by {
                    if s.list.contains(x) && x != slab {
                        let j = s.list.index_of(x);
                        assert(list2[j - 1] == x);
                    }
                    if list2.contains(x) {
                        let j = list2.index_of(x);
                        assert(s.list[j + 1] == x);
                    }
                    if x == slab {
                        assert(s.list[0] == x);
                    }
                }
            },
            Task::PushLink { slab, seen } => {
                lemma_own_link(s, t, slab, index_of(seen));
            },
            Task::PopClear { slab } => {
                lemma_own_link(s, t, slab, NULL_U32);
            },
            Task::PopStart => {
                if index_of(w.head) != NULL_U32 && s.list.len() > 0 {
                    assert(s.list[0] < w.next.len());
                }
            },
            _ => {},
        }
    }
    assert forall|x: u32| #[trigger] a.has(x) <==> s.has(x) by {
        lemma_has(s, a, t, x);
    }
    assert forall|u: int| 0 <= u < a.tasks.len() implies #[trigger] a.task_ok(u) by {
        assert(s.task_ok(u));
        if u != t {
            lemma_other_task(s, a, t, u);
        }
    }
}

/// A slab that a worker holds may have its link changed: that concerns no other worker and
/// no slab in the list.
proof fn lemma_own_link(s: System, t: int, slab: u32, link: u32)
    requires
        s.ok(),
        0 <= t < s.held.len(),
        s.held[t].contains(slab),
    ensures
        linked(
            s.words.next.update(slab as int, link),
            index_of(s.words.head),
            s.list,
        ),
{
    let next2 = s.words.next.update(slab as int, link);
    assert forall|x: u32| s.list.contains(x) implies #[trigger] next2[x as int]
        == s.words.next[x as int] by {
        assert(x != slab);
        let i = s.list.index_of(x);
        assert(s.list[i] < s.words.next.len());
    }
    crate::links::lemma_linked_frame(s.words.next, next2, index_of(s.words.head), s.list);
}

/// Where the slabs are after a move.
proof fn lemma_has(s: System, a: System, t: int, x: u32)
    requires
        0 <= t < s.held.len(),
        a.held.len() == s.held.len(),
        forall|u: int| 0 <= u < s.held.len() && u != t ==> #[trigger] a.held[u] == s.held[u],
        a.list.contains(x) || a.held[t].contains(x) <==> s.list.contains(x) || s.held[t].contains(x),
    ensures
        a.has(x) <==> s.has(x),
{
    if s.has(x) && !s.list.contains(x) {
        let u = choose|u: int| 0 <= u < s.held.len() && (#[trigger] s.held[u]).contains(x);
        if u != t {
            assert(a.held[u].contains(x));
        } else if !a.list.contains(x) {
            assert(a.held[t].contains(x));
        }
    }
    if a.has(x) && !a.list.contains(x) {
        let u = choose|u: int| 0 <= u < a.held.len() && (#[trigger] a.held[u]).contains(x);
        if u != t {
            assert(s.held[u].contains(x));
        } else if !s.list.contains(x) {
            assert(s.held[t].contains(x));
        }
    }
    if s.list.contains(x) && !a.list.contains(x) {
        assert(a.held[t].contains(x));
    }
    if a.list.contains(x) && !s.list.contains(x) {
        assert(s.held[t].contains(x));
    }
}

/// A move of one worker does not disturb the tasks of the others.
proof fn lemma_other_task(s: System, a: System, t: int, u: int)
    requires
        s.ok(),
        s.task_ok(u),
        0 <= t < s.tasks.len(),
        0 <= u < s.tasks.len(),
        t != u,
        a.clears == s.clears,
        a.tasks[u] == s.tasks[u],
        a.since[u] == s.since[u],
        a.held[u] == s.held[u],
        a.count == s.count && a.words.head == s.words.head || a.count == s.count + 1,
        a.words.next == s.words.next || exists|x: u32, link: u32|
            s.held[t].contains(x) && a.words.next == #[trigger] s.words.next.update(x as int, link)
                && a.count == s.count,
    ensures
        a.task_ok(u),
{
    if a.words.next != s.words.next {
        let (x, link) = choose|x: u32, link: u32|
            s.held[t].contains(x) && a.words.next == #[trigger] s.words.next.update(x as int, link)
                && a.count == s.count;
        match s.tasks[u] {
            Task::PushSwap { slab, seen } => {
                assert(s.held[u].contains(slab));
                assert(x != slab);
            },
            Task::PopSwap { seen, next } => {
                if s.since[u] == s.count {
                    let first = index_of(seen);
                    assert(s.list.len() > 0 && s.list[0] == first);
                    assert(s.list.contains(first));
                    assert(x != first);
                }
            },
            _ => {},
        }
    }
}

/// Whatever the order in which workers take their steps, no slab is lost and none is
/// duplicated: each is in the list or held by one worker, as it was before.
pub proof fn law_no_slab_lost(s: System, schedule: Seq<(int, Move)>)
    requires
        s.ok(),
        s.allows_all(schedule),
    ensures
        s.after_all(schedule).ok(),
        forall|x: u32| #[trigger] s.after_all(schedule).has(x) <==> s.has(x),
    decreases schedule.len(),
{
    if schedule.len() > 0 {
        let (t, m) = schedule[0];
        let next = s.after(t, m);
        law_move(s, t, m);
        law_no_slab_lost(next, schedule.drop_first());
        assert forall|x: u32| #[trigger] s.after_all(schedule).has(x) <==> s.has(x) by {
            assert(next.after_all(schedule.drop_first()).has(x) <==> next.has(x));
            assert(next.has(x) <==> s.has(x));
        }
    }
}

/// The sum of some numbers.
pub open spec fn sum(numbers: Seq<nat>) -> nat
    decreases numbers.len(),
{
    if numbers.len() == 0 {
        0
    } else {
        sum(numbers.drop_last()) + numbers.last()
    }
}

/// A sum gets smaller with one of its numbers.
pub proof fn lemma_sum_less(a: Seq<nat>, b: Seq<nat>, t: int)
    requires
        a.len() == b.len(),
        0 <= t < a.len(),
        b[t] < a[t],
        forall|u: int| 0 <= u < a.len() && u != t ==> #[trigger] b[u] == a[u],
    ensures
        sum(b) < sum(a),
    decreases a.len(),
{
    if t == a.len() - 1 {
        assert(b.drop_last() =~= a.drop_last());
    } else {
        lemma_sum_less(a.drop_last(), b.drop_last(), t);
    }
}

/// A sum of numbers with a bound.
pub proof fn lemma_sum_bound(a: Seq<nat>, bound: nat)
    requires
        forall|u: int| 0 <= u < a.len() ==> #[trigger] a[u] <= bound,
    ensures
        sum(a) <= bound * a.len(),
    decreases a.len(),
{
    if a.len() > 0 {
        lemma_sum_bound(a.drop_last(), bound);
        vstd::arithmetic::mul::lemma_mul_is_distributive_add(
            bound as int,
            (a.len() - 1) as int,
            1,
        );
    } else {
        vstd::arithmetic::mul::lemma_mul_basics(bound as int);
    }
}

/// An exchange is refused only if another worker exchanged the head since the refused worker
/// loaded it.
pub proof fn law_refused_by_progress(s: System, t: int)
    requires
        s.ok(),
        0 <= t < s.tasks.len(),
        s.refuses(t),
    ensures
        s.count > s.since[t],
        s.after(t, Move::Step).tasks[t] is PushStart || s.after(t, Move::Step).tasks[t] is PopStart,
        s.after(t, Move::Step).words == s.words,
{
    assert(s.task_ok(t));
}

/// An access of an unfinished task exchanges the head, or brings its worker nearer to the end.
proof fn lemma_ahead(s: System, t: int)
    requires
        s.ok(),
        s.allows(t, Move::Step),
        !(s.tasks[t] is Done),
    ensures
        ({
            let a = s.after(t, Move::Step);
            &&& s.count <= a.count
            &&& a.count == s.count ==> sum(a.all_ahead()) < sum(s.all_ahead())
        }),
{
    let a = s.after(t, Move::Step);
    assert(s.task_ok(t));
    if s.refuses(t) {
        law_refused_by_progress(s, t);
    }
    if a.count == s.count {
        assert(a.ahead(t) < s.ahead(t));
        lemma_sum_less(s.all_ahead(), a.all_ahead(), t);
    }
}

proof fn lemma_busy(s: System, schedule: Seq<(int, Move)>)
    requires
        s.ok(),
        s.allows_all(schedule),
        s.busy_all(schedule),
    ensures
        s.after_all(schedule).count >= s.count,
        s.after_all(schedule).count == s.count ==> schedule.len() <= sum(s.all_ahead()),
    decreases schedule.len(),
{
    if schedule.len() > 0 {
        let (t, m) = schedule[0];
        law_move(s, t, m);
        lemma_ahead(s, t);
        lemma_busy(s.after(t, m), schedule.drop_first());
    }
}

/// The list is lock-free: whatever the order in which workers take their steps, and whoever of
/// them stands still, once seven accesses for each worker and one more have been made on behalf
/// of pushes and pops under way, one of these has exchanged the head.
pub proof fn law_lock_free(s: System, schedule: Seq<(int, Move)>)
    requires
        s.ok(),
        s.allows_all(schedule),
        s.busy_all(schedule),
        schedule.len() > 7 * s.tasks.len(),
    ensures
        s.after_all(schedule).count > s.count,
{
    lemma_busy(s, schedule);
    lemma_sum_bound(s.all_ahead(), 7);
}

/// A push that nobody disturbs puts the slab in front of the list.
pub proof fn law_push_undisturbed(w: Words, list: Seq<u32>, slab: u32)
    requires
        linked(w.next, index_of(w.head), list),
        slab < w.next.len(),
        !list.contains(slab),
    ensures
        ({
            let (w1, t1) = (Task::PushStart { slab }).step(w, true);
            let (w2, t2) = t1.step(w1, true);
            let (w3, t3) = t2.step(w2, true);
            &&& t3 == (Task::Done { popped: None })
            &&& linked(w3.next, index_of(w3.head), seq![slab] + list)
            &&& generation_of(w3.head) == next_generation(generation_of(w.head))
        }),
{
    crate::links::lemma_linked_push(w.next, index_of(w.head), list, slab);
    crate::global_free_list::law_pack_round_trip(
        next_generation(generation_of(w.head)),
        slab,
        w.head,
    );
}

/// A pop that nobody disturbs takes the first slab of the list, if there is one.
pub proof fn law_pop_undisturbed(w: Words, list: Seq<u32>)
    requires
        linked(w.next, index_of(w.head), list),
    ensures
        ({
            let (w1, t1) = Task::PopStart.step(w, true);
            let (w2, t2) = t1.step(w1, true);
            let (w3, t3) = t2.step(w2, true);
            let (w4, t4) = t3.step(w3, true);
            if list.len() == 0 {
                &&& t1 == (Task::Done { popped: None })
                &&& w1 == w
            } else {
                &&& t4 == (Task::Done { popped: Some(list[0]) })
                &&& linked(w4.next, index_of(w4.head), list.drop_first())
                &&& w4.next[list[0] as int] == NULL_U32
                &&& generation_of(w4.head) == next_generation(generation_of(w.head))
            }
        }),
{
    if list.len() > 0 {
        assert(list[0] < w.next.len());
        crate::links::lemma_linked_pop(w.next, index_of(w.head), list);
        crate::global_free_list::law_pack_round_trip(
            next_generation(generation_of(w.head)),
            w.next[list[0] as int],
            w.head,
        );
    }
}

/// The same for a list that leaves the links of popped slabs: a push that nobody disturbs puts
/// the slab in front, and a pop takes the first slab, if there is one.
pub proof fn law_stack_undisturbed(w: Words, list: Seq<u32>, slab: u32)
    requires
        linked(w.next, index_of(w.head), list),
        slab < w.next.len(),
        !list.contains(slab),
    ensures
        ({
            let (w1, t1) = (Task::PushStart { slab }).step(w, false);
            let (w2, t2) = t1.step(w1, false);
            let (w3, t3) = t2.step(w2, false);
            &&& t3 == (Task::Done { popped: None })
            &&& linked(w3.next, index_of(w3.head), seq![slab] + list)
            &&& generation_of(w3.head) as int == (generation_of(w.head) + 1) % 0x1_0000_0000
        }),
        ({
            let (w1, t1) = Task::PopStart.step(w, false);
            let (w2, t2) = t1.step(w1, false);
            let (w3, t3) = t2.step(w2, false);
            if list.len() == 0 {
                &&& t1 == (Task::Done { popped: None })
                &&& w1 == w
            } else {
                &&& t3 == (Task::Done { popped: Some(list[0]) })
                &&& linked(w3.next, index_of(w3.head), list.drop_first())
                &&& w3.next == w.next
                &&& generation_of(w3.head) as int == (generation_of(w.head) + 1) % 0x1_0000_0000
            }
        }),
{
    crate::links::lemma_linked_push(w.next, index_of(w.head), list, slab);
    crate::global_free_list::law_pack_round_trip(
        next_generation(generation_of(w.head)),
        slab,
        w.head,
    );
    if list.len() > 0 {
        assert(list[0] < w.next.len());
        crate::links::lemma_linked_pop(w.next, index_of(w.head), list);
        let first = list[0] as int;
        assert(w.next.update(first, NULL_U32).update(first, w.next[first]) =~= w.next);
        crate::links::lemma_linked_frame(
            w.next.update(first, NULL_U32),
            w.next,
            w.next[first],
            list.drop_first(),
        );
        crate::global_free_list::law_pack_round_trip(
            next_generation(generation_of(w.head)),
            w.next[first],
            w.head,
        );
    }
}

/// Workers that do nothing yet, and hold different slabs that are not in the list, can start:
/// each may push what it holds, and each may pop.
pub proof fn law_start(s: System, t: int, slab: u32)
    requires
        linked(s.words.next, index_of(s.words.head), s.list),
        s.count % 0x1_0000_0000 == generation_of(s.words.head),
        s.since.len() == s.tasks.len(),
        s.held.len() == s.tasks.len(),
        forall|u: int| 0 <= u < s.tasks.len() ==> #[trigger] s.tasks[u] is Done,
        forall|u: int, x: u32|
            0 <= u < s.held.len() && #[trigger] s.held[u].contains(x) ==> x < s.words.next.len()
                && !s.list.contains(x),
        forall|u: int, v: int, x: u32|
            0 <= u < s.held.len() && 0 <= v < s.held.len() && u != v
                && #[trigger] s.held[u].contains(x) ==> !#[trigger] s.held[v].contains(x),
        0 <= t < s.tasks.len(),
    ensures
        s.ok(),
        s.allows(t, Move::Pop),
        s.held[t].contains(slab) ==> s.allows(t, Move::Push { slab }),
        s.after(t, Move::Pop).tasks[t] == Task::PopStart,
        s.after(t, Move::Push { slab }).tasks[t] == (Task::PushStart { slab }),
{
    assert forall|u: int| 0 <= u < s.tasks.len() implies #[trigger] s.task_ok(u) by {
        assert(s.tasks[u] is Done);
    }
}

/// A worker may go on at any time, unless 2^32 exchanges were made since its task last loaded the
/// head; it makes the next access of its task, and no other worker's task moves.
pub proof fn law_go_on(s: System, t: int, u: int)
    requires
        s.ok(),
        0 <= t < s.tasks.len(),
        0 <= u < s.tasks.len(),
        s.count - s.since[t] < 0x1_0000_0000,
    ensures
        s.allows(t, Move::Step),
        (s.after(t, Move::Step).words, s.after(t, Move::Step).tasks[t]) == s.tasks[t].step(
            s.words,
            s.clears,
        ),
        u != t ==> s.after(t, Move::Step).tasks[u] == s.tasks[u] && s.after(t, Move::Step).held[u]
            == s.held[u],
{
}

/// A pop that ends with a slab leaves the slab to the worker that popped it, and one that ends
/// without found the list empty. A push that ends has put its slab in front of the list.
pub proof fn law_outcome(s: System, t: int)
    requires
        s.ok(),
        s.allows(t, Move::Step),
    ensures
        ({
            let a = s.after(t, Move::Step);
            match s.tasks[t] {
                Task::PopStart => a.tasks[t] == (Task::Done { popped: None }) <==> s.list.len()
                    == 0,
                Task::PopSwap { seen, next } => {
                    &&& seen == s.words.head ==> {
                        &&& s.list.len() > 0
                        &&& a.list == s.list.drop_first()
                        &&& a.held[t] == s.held[t].insert(s.list[0])
                        &&& a.tasks[t] == if s.clears {
                            Task::PopClear { slab: s.list[0] }
                        } else {
                            Task::Done { popped: Some(s.list[0]) }
                        }
                    }
                    &&& seen != s.words.head ==> a.tasks[t] == Task::PopStart && a.list == s.list
                },
                Task::PopClear { slab } => a.tasks[t] == (Task::Done { popped: Some(slab) })
                    && a.held[t].contains(slab) && a.list == s.list,
                Task::PushSwap { slab, seen } => {
                    &&& seen == s.words.head ==> {
                        &&& a.list == seq![slab] + s.list
                        &&& a.held[t] == s.held[t].remove(slab)
                        &&& a.tasks[t] == (Task::Done { popped: None })
                    }
                    &&& seen != s.words.head ==> a.tasks[t] == (Task::PushStart { slab })
                        && a.list == s.list
                },
                Task::Done { popped } => a.tasks[t] == s.tasks[t] && a.words == s.words,
                _ => a.list == s.list && a.held == s.held && !(a.tasks[t] is Done),
            }
        }),
{
    assert(s.task_ok(t));
    law_move(s, t, Move::Step);
    match s.tasks[t] {
        Task::PopStart => {
            if s.list.len() > 0 {
                assert(s.list[0] < s.words.next.len());
            }
        },
        Task::PopSwap { seen, next } => {
            if seen == s.words.head {
                if s.list.len() == 0 {
                    assert(index_of(seen) == NULL_U32);
                }
                lemma_same_generation(s.since[t], s.count);
                assert(s.list[0] == index_of(seen));
            }
        },
        _ => {},
    }
}

} // verus!
