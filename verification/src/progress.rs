//! Progress: a measure of how far each participant is from the end of its
//! operation if nobody interferes, and the proof that only a successful
//! compare-and-swap of one participant can set another back.

use vstd::prelude::*;
use crate::model::Model;
use crate::participant::Phase;
use crate::safety::lemma_step_inv;

verus! {

impl Model {
    /// The number of steps that participant `t` needs at most to end its
    /// operation, if no other participant takes a step meanwhile.
    pub open spec fn rank(self, t: int) -> nat {
        let p = self.participants[t];
        let scan = p.peers as nat;
        let head = self.memory.head;
        match p.phase {
            Phase::Idle => 0,
            Phase::Done(_) => 0,
            Phase::ClaimLoad { .. } => 8,
            Phase::ClaimCas { fresh, .. } => if self.memory.fresh == fresh {
                6
            } else {
                9
            },
            Phase::Fill { .. } => 5,
            Phase::PushRead { .. } => 4,
            Phase::Link { head: seen, .. } => if head == seen {
                2
            } else {
                6
            },
            Phase::PushCas { head: seen, .. } => if head == seen {
                1
            } else {
                5
            },
            Phase::Scan { cursor, .. } => (scan - cursor) as nat,
            Phase::Clear { .. } => scan + 1,
            Phase::Extract { .. } => scan + 2,
            Phase::PopCas { node, .. } => if head == node {
                scan + 3
            } else {
                scan + 9
            },
            Phase::Follow { node } => if head == node {
                scan + 4
            } else {
                scan + 10
            },
            Phase::Validate { node } => if head == node {
                scan + 5
            } else {
                scan + 9
            },
            Phase::Announce { node } => if head == node {
                scan + 6
            } else {
                scan + 10
            },
            Phase::PopRead => scan + 7,
            Phase::Withdraw => scan + 8,
        }
    }

    /// The next step of participant `t` is a compare-and-swap that succeeds:
    /// it claims a node, or its operation takes effect on the stack.
    pub open spec fn wins(self, t: int) -> bool {
        match self.participants[t].phase {
            Phase::ClaimCas { fresh, .. } => self.memory.fresh == fresh,
            Phase::PushCas { head, .. } => self.memory.head == head,
            Phase::PopCas { node, .. } => self.memory.head == node,
            _ => false,
        }
    }

    /// The ranks of the first `n` participants, added up.
    pub open spec fn total(self, n: nat) -> nat
        decreases n,
    {
        if n == 0 {
            0
        } else {
            self.total((n - 1) as nat) + self.rank(n - 1)
        }
    }

    /// The system after the participants of `schedule` have taken one step
    /// each, in that order.
    pub open spec fn run(self, schedule: Seq<int>) -> Model
        decreases schedule.len(),
    {
        if schedule.len() == 0 {
            self
        } else {
            self.step(schedule.first()).run(schedule.drop_first())
        }
    }

    /// Every step of `schedule` is taken by a participant in the middle of an
    /// operation, and none of them is a compare-and-swap that succeeds.
    pub open spec fn stalls(self, schedule: Seq<int>) -> bool
        decreases schedule.len(),
    {
        schedule.len() > 0 ==> {
            let t = schedule.first();
            &&& 0 <= t < self.participants.len()
            &&& self.participants[t].phase.active()
            &&& !self.wins(t)
            &&& self.step(t).stalls(schedule.drop_first())
        }
    }
}

/// No participant is further than `peers + 10` steps from the end of its
/// operation.
pub proof fn lemma_rank_bound(m: Model, t: int)
    requires
        m.shape(),
        0 <= t < m.participants.len(),
    ensures
        m.rank(t) <= m.participants.len() + 10,
{
    assert(m.seated(t));
}

/// A step brings the participant that takes it closer to the end of its
/// operation.
pub proof fn lemma_own_step(m: Model, t: int)
    requires
        m.shape(),
        0 <= t < m.participants.len(),
        m.participants[t].phase.active(),
    ensures
        m.step(t).rank(t) < m.rank(t),
{
    assert(m.seated(t));
}

/// A step that is no successful compare-and-swap leaves every other
/// participant as far from the end of its operation as it was.
pub proof fn lemma_other_step(m: Model, u: int, t: int)
    requires
        m.shape(),
        0 <= u < m.participants.len(),
        0 <= t < m.participants.len(),
        u != t,
        !m.wins(u),
    ensures
        m.step(u).rank(t) == m.rank(t),
{
    assert(m.seated(u));
    assert(m.seated(t));
}

/// A step that is no successful compare-and-swap lowers the sum of the ranks.
pub proof fn lemma_step_total(m: Model, u: int, n: nat)
    requires
        m.shape(),
        0 <= u < m.participants.len(),
        n <= m.participants.len(),
        m.participants[u].phase.active(),
        !m.wins(u),
    ensures
        u < n ==> m.step(u).total(n) < m.total(n),
        u >= n ==> m.step(u).total(n) == m.total(n),
    decreases n,
{
    if n > 0 {
        lemma_step_total(m, u, (n - 1) as nat);
        if u == n - 1 {
            lemma_own_step(m, u);
        } else {
            lemma_other_step(m, u, n - 1);
        }
    }
}

/// The sum of the ranks is at most `peers * (peers + 10)`.
pub proof fn lemma_total_bound(m: Model, n: nat)
    requires
        m.shape(),
        n <= m.participants.len(),
    ensures
        m.total(n) <= n * (m.participants.len() + 10),
    decreases n,
{
    if n > 0 {
        lemma_total_bound(m, (n - 1) as nat);
        lemma_rank_bound(m, n - 1);
        assert(n * (m.participants.len() + 10) == (n - 1) * (m.participants.len() + 10) + (
        m.participants.len() + 10)) by (nonlinear_arith);
    }
}

/// Whatever the schedule, the system stays within its invariant.
pub proof fn lemma_run_inv(m: Model, schedule: Seq<int>)
    requires
        m.inv(),
    ensures
        m.run(schedule).inv(),
        m.run(schedule).participants.len() == m.participants.len(),
    decreases schedule.len(),
{
    if schedule.len() > 0 {
        lemma_step_inv(m, schedule.first());
        lemma_run_inv(m.step(schedule.first()), schedule.drop_first());
    }
}

/// Lock-freedom: the participants cannot go on taking steps without one of
/// them succeeding in a compare-and-swap. A schedule in which every step is
/// taken in the middle of an operation and none is a successful
/// compare-and-swap is at most `peers * (peers + 10)` steps long.
pub proof fn lemma_stall_bound(m: Model, schedule: Seq<int>)
    requires
        m.inv(),
        m.stalls(schedule),
    ensures
        schedule.len() <= m.total(m.participants.len()),
        schedule.len() <= m.participants.len() * (m.participants.len() + 10),
    decreases schedule.len(),
{
    let peers = m.participants.len();
    lemma_total_bound(m, peers);
    if schedule.len() > 0 {
        let t = schedule.first();
        lemma_step_inv(m, t);
        lemma_step_total(m, t, peers);
        lemma_stall_bound(m.step(t), schedule.drop_first());
    }
}

impl Model {
    /// The system after participant `t` has taken steps until its operation
    /// ended, while nobody else took any.
    pub open spec fn settle(self, t: int) -> Model
        decreases self.rank(t),
    {
        if self.shape() && 0 <= t < self.participants.len() && self.participants[t].phase.active() {
            proof {
                lemma_own_step(self, t);
            }
            self.step(t).settle(t)
        } else {
            self
        }
    }
}

} // verus!
