//! Worker slots under concurrent use.
//!
//! Workers that join look for a free slot at the same time, each trying one slot after another
//! with a compare-exchange. What is shown here is that no two workers ever have the same slot,
//! and that none looks for one forever.
use crate::allocator::AllocatorBase;
use crate::memory::{load_u8, same_outside, store_u8};
use crate::region::CLAIMED;
use crate::state::State;
use vstd::prelude::*;

verus! {

/// How far a worker has come that joins.
#[derive(Clone, Copy, Debug, PartialEq, Eq, Structural)]
pub enum ClaimTask {
    /// Has no slot and looks for none.
    Idle,
    /// Will try to exchange the claim of a slot.
    Try { index: u32 },
    /// Has a slot.
    Got { index: u32 },
    /// Has found all slots taken.
    Refused,
}

impl ClaimTask {
    /// The next access of a worker, and how it goes on.
    pub open spec fn step(self, claimed: Seq<u8>) -> (Seq<u8>, ClaimTask) {
        match self {
            ClaimTask::Try { index } => if index >= claimed.len() {
                (claimed, ClaimTask::Refused)
            } else if claimed[index as int] == 0 {
                (claimed.update(index as int, 1), ClaimTask::Got { index })
            } else {
                (claimed, ClaimTask::Try { index: (index + 1) as u32 })
            },
            _ => (claimed, self),
        }
    }
}

impl AllocatorBase {
    /// Makes the next access of a worker that joins.
    pub fn advance_claim(&self, mem: &mut [u8], task: ClaimTask) -> (next: ClaimTask)
        requires
            self.valid(old(mem)@),
        ensures
            self.valid(final(mem)@),
            ({
                let (claimed, task2) = task.step(self.state(old(mem)@).claimed);
                &&& next == task2
                &&& self.state(final(mem)@) == (State { claimed, ..self.state(old(mem)@) })
            }),
            match task {
                ClaimTask::Try { index } => {
                    let word = self.layout.worker_at(index as int) + CLAIMED;
                    same_outside(old(mem)@, final(mem)@, word, word + 1)
                },
                _ => final(mem)@ == old(mem)@,
            },
    {
        let ghost m0 = mem@;
        let ghost l = self.layout;
        let ghost s = self.state(m0);
        match task {
            ClaimTask::Try { index } => {
                if index >= self.layout.num_workers {
                    return ClaimTask::Refused;
                }
                proof {
                    self.lemma_fit(s);
                    l.lemma_read_worker(m0, s, index as int);
                }
                let claimed = self.worker_meta(index).claimed;
                if load_u8(mem, claimed) == 0 {
                    store_u8(mem, claimed, 1);
                    proof {
                        let after = State { claimed: s.claimed.update(index as int, 1), ..s };
                        l.lemma_holds_worker(m0, mem@, s, index as int, CLAIMED as int, 1);
                        s.lemma_same_ok(l, after);
                        self.lemma_in_order(m0, mem@, after);
                    }
                    ClaimTask::Got { index }
                } else {
                    ClaimTask::Try { index: index + 1 }
                }
            },
            _ => task,
        }
    }
}

/// Several workers that come and go.
pub struct ClaimSystem {
    pub claimed: Seq<u8>,
    pub tasks: Seq<ClaimTask>,
}

/// What a worker does next.
pub enum ClaimMove {
    /// Starts to look for a slot.
    Join,
    /// Makes its next access.
    Step,
    /// Gives its slot back.
    Leave,
}

impl ClaimSystem {
    /// A worker has a slot.
    pub open spec fn has(self, t: int, index: u32) -> bool {
        self.tasks[t] == (ClaimTask::Got { index })
    }

    /// What holds at all times: who has a slot has it alone.
    pub open spec fn ok(self) -> bool {
        &&& self.claimed.len() <= u32::MAX
        &&& forall|t: int, index: u32|
            0 <= t < self.tasks.len() && #[trigger] self.has(t, index) ==> index
                < self.claimed.len() && self.claimed[index as int] != 0
        &&& forall|t: int, u: int, index: u32|
            0 <= t < self.tasks.len() && 0 <= u < self.tasks.len() && t != u
                && #[trigger] self.has(t, index) ==> !#[trigger] self.has(u, index)
    }

    /// A worker may make a move: it looks for a slot only while it has none.
    pub open spec fn allows(self, t: int, m: ClaimMove) -> bool {
        &&& 0 <= t < self.tasks.len()
        &&& match m {
            ClaimMove::Join => !(self.tasks[t] is Got),
            ClaimMove::Step => true,
            ClaimMove::Leave => self.tasks[t] is Got,
        }
    }

    /// The system after a worker's move.
    pub open spec fn after(self, t: int, m: ClaimMove) -> ClaimSystem {
        match m {
            ClaimMove::Join => ClaimSystem {
                tasks: self.tasks.update(t, ClaimTask::Try { index: 0 }),
                ..self
            },
            ClaimMove::Step => {
                let (claimed, task) = self.tasks[t].step(self.claimed);
                ClaimSystem { claimed, tasks: self.tasks.update(t, task) }
            },
            ClaimMove::Leave => ClaimSystem {
                claimed: self.claimed.update(self.tasks[t]->Got_index as int, 0),
                tasks: self.tasks.update(t, ClaimTask::Idle),
            },
        }
    }

    /// All moves of a schedule, one after another, are allowed.
    pub open spec fn allows_all(self, schedule: Seq<(int, ClaimMove)>) -> bool
        decreases schedule.len(),
    {
        schedule.len() == 0 || {
            &&& self.allows(schedule[0].0, schedule[0].1)
            &&& self.after(schedule[0].0, schedule[0].1).allows_all(schedule.drop_first())
        }
    }

    /// The system after a schedule of moves.
    pub open spec fn after_all(self, schedule: Seq<(int, ClaimMove)>) -> ClaimSystem
        decreases schedule.len(),
    {
        if schedule.len() == 0 {
            self
        } else {
            self.after(schedule[0].0, schedule[0].1).after_all(schedule.drop_first())
        }
    }
}

/// A move of a worker leaves each slot to one worker at most.
proof fn lemma_claim_move(s: ClaimSystem, t: int, m: ClaimMove)
    requires
        s.ok(),
        s.allows(t, m),
    ensures
        s.after(t, m).ok(),
{
    let a = s.after(t, m);
    if s.tasks[t] is Got {
        assert(s.has(t, s.tasks[t]->Got_index));
    }
    assert forall|u: int, index: u32|
        0 <= u < a.tasks.len() && #[trigger] a.has(u, index) implies index < a.claimed.len()
        && a.claimed[index as int] != 0 by {
        if u != t {
            assert(s.has(u, index));
            if m is Leave {
                assert(s.has(t, s.tasks[t]->Got_index));
            }
        } else {
            if s.tasks[t] is Got {
                assert(s.has(t, index));
            }
        }
    }
    assert forall|u: int, v: int, index: u32|
        0 <= u < a.tasks.len() && 0 <= v < a.tasks.len() && u != v && #[trigger] a.has(
            u,
            index,
        ) implies !#[trigger] a.has(v, index) by {
        if u != t {
            assert(s.has(u, index));
        } else if s.tasks[t] is Got {
            assert(s.has(t, index));
        }
        if v != t && a.has(v, index) {
            assert(s.has(v, index));
        }
        if v == t && a.has(v, index) && s.tasks[t] is Got {
            assert(s.has(t, index));
        }
    }
}

/// Whatever the order in which workers join, look for slots and leave, no two of them ever
/// have the same slot.
pub proof fn law_slots_unique(s: ClaimSystem, schedule: Seq<(int, ClaimMove)>)
    requires
        s.ok(),
        s.allows_all(schedule),
    ensures
        s.after_all(schedule).ok(),
    decreases schedule.len(),
{
    if schedule.len() > 0 {
        lemma_claim_move(s, schedule[0].0, schedule[0].1);
        law_slots_unique(s.after(schedule[0].0, schedule[0].1), schedule.drop_first());
    }
}

/// How many accesses a worker makes in a schedule.
pub open spec fn accesses_of(schedule: Seq<(int, ClaimMove)>, t: int) -> nat
    decreases schedule.len(),
{
    if schedule.len() == 0 {
        0
    } else {
        accesses_of(schedule.drop_first(), t) + if schedule[0].0 == t {
            1nat
        } else {
            0
        }
    }
}

/// Whatever the others do, a worker that looks for a slot from a given one on knows the outcome
/// after one access for each slot that is left and one more.
pub proof fn law_join_ends(s: ClaimSystem, schedule: Seq<(int, ClaimMove)>, t: int, index: u32)
    requires
        s.ok(),
        s.allows_all(schedule),
        0 <= t < s.tasks.len(),
        index <= s.claimed.len(),
        s.tasks[t] == (ClaimTask::Try { index }),
        forall|i: int|
            0 <= i < schedule.len() && (#[trigger] schedule[i]).0 == t ==> schedule[i].1 is Step,
        accesses_of(schedule, t) > s.claimed.len() - index,
    ensures
        s.after_all(schedule).tasks[t] is Got || s.after_all(schedule).tasks[t] is Refused,
    decreases schedule.len(),
{
    let (u, m) = schedule[0];
    let rest = schedule.drop_first();
    let a = s.after(u, m);
    lemma_claim_move(s, u, m);
    assert forall|i: int| 0 <= i < rest.len() && (#[trigger] rest[i]).0 == t implies rest[i].1 is Step by {
        assert(rest[i] == schedule[i + 1]);
    }
    if m is Leave {
        assert(s.has(u, s.tasks[u]->Got_index));
    }
    if u != t {
        law_join_ends(a, rest, t, index);
    } else if a.tasks[t] is Try {
        law_join_ends(a, rest, t, (index + 1) as u32);
    } else {
        lemma_outcome_stays(a, rest, t);
    }
}

/// A worker that knows the outcome keeps it as long as it only makes accesses.
proof fn lemma_outcome_stays(s: ClaimSystem, schedule: Seq<(int, ClaimMove)>, t: int)
    requires
        s.allows_all(schedule),
        0 <= t < s.tasks.len(),
        s.tasks[t] is Got || s.tasks[t] is Refused,
        forall|i: int|
            0 <= i < schedule.len() && (#[trigger] schedule[i]).0 == t ==> schedule[i].1 is Step,
    ensures
        s.after_all(schedule).tasks[t] == s.tasks[t],
    decreases schedule.len(),
{
    if schedule.len() > 0 {
        let (u, m) = schedule[0];
        let rest = schedule.drop_first();
        let _ = schedule[0].0 == t;
        assert forall|i: int| 0 <= i < rest.len() && (#[trigger] rest[i]).0 == t implies rest[i].1 is Step by {
            assert(rest[i] == schedule[i + 1]);
        }
        lemma_outcome_stays(s.after(u, m), rest, t);
    }
}

/// What a number of accesses of a worker come to that nobody disturbs.
pub open spec fn accesses(claimed: Seq<u8>, task: ClaimTask, times: nat) -> (Seq<u8>, ClaimTask)
    decreases times,
{
    if times == 0 {
        (claimed, task)
    } else {
        let (before, mid) = accesses(claimed, task, (times - 1) as nat);
        mid.step(before)
    }
}

/// A worker that nobody disturbs gets the first free slot, which is taken then and no other, and
/// is refused only if there is none.
pub proof fn law_join_undisturbed(claimed: Seq<u8>, first: int)
    requires
        claimed.len() <= u32::MAX,
        0 <= first <= claimed.len(),
        forall|v: int| 0 <= v < first ==> #[trigger] claimed[v] != 0,
        first < claimed.len() ==> claimed[first] == 0,
    ensures
        ({
            let (after, task) = accesses(claimed, ClaimTask::Try { index: 0 }, (first + 1) as nat);
            if first < claimed.len() {
                &&& task == (ClaimTask::Got { index: first as u32 })
                &&& after.len() == claimed.len()
                &&& after[first] != 0
                &&& forall|v: int|
                    0 <= v < claimed.len() && v != first ==> #[trigger] after[v] == claimed[v]
            } else {
                &&& task == ClaimTask::Refused
                &&& after == claimed
            }
        }),
{
    lemma_accesses(claimed, first, first as nat);
}

proof fn lemma_accesses(claimed: Seq<u8>, first: int, times: nat)
    requires
        claimed.len() <= u32::MAX,
        times <= first <= claimed.len(),
        forall|v: int| 0 <= v < first ==> #[trigger] claimed[v] != 0,
    ensures
        accesses(claimed, ClaimTask::Try { index: 0 }, times) == (
            claimed,
            ClaimTask::Try { index: times as u32 },
        ),
    decreases times,
{
    if times > 0 {
        lemma_accesses(claimed, first, (times - 1) as nat);
        assert(claimed[times - 1] != 0);
    }
}

/// Workers without slots can start at any time, and whoever joins may go on at any time.
pub proof fn law_claim_start(s: ClaimSystem, t: int)
    requires
        s.claimed.len() <= u32::MAX,
        0 <= t < s.tasks.len(),
    ensures
        (forall|u: int| 0 <= u < s.tasks.len() ==> !(#[trigger] s.tasks[u] is Got)) ==> s.ok(),
        s.allows(t, ClaimMove::Step),
        !(s.tasks[t] is Got) ==> s.allows(t, ClaimMove::Join),
        s.tasks[t] is Got ==> s.allows(t, ClaimMove::Leave),
        s.after(t, ClaimMove::Join).tasks[t] == (ClaimTask::Try { index: 0 }),
        s.after(t, ClaimMove::Join).claimed == s.claimed,
        (s.after(t, ClaimMove::Step).claimed, s.after(t, ClaimMove::Step).tasks[t])
            == s.tasks[t].step(s.claimed),
{
    if forall|u: int| 0 <= u < s.tasks.len() ==> !(#[trigger] s.tasks[u] is Got) {
        assert forall|u: int, index: u32| 0 <= u < s.tasks.len() implies !#[trigger] s.has(
            u,
            index,
        ) by {
            assert(!(s.tasks[u] is Got));
        }
    }
}

} // verus!
