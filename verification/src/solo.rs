//! An operation that runs from start to end while no other participant takes
//! a step: where it stands, and what it has done to the stack so far.

use vstd::prelude::*;
use crate::cell::NIL;
use crate::model::Event;
use crate::model::Model;
use crate::model::Op;
use crate::participant::Outcome;
use crate::participant::Phase;
use crate::reclaim::lemma_filter_keeps;
use crate::reclaim::named_in;
use crate::safety::lemma_enlarged_inv;
use crate::safety::lemma_step_inv;
use crate::vector::grown;

verus! {

impl Model {
    /// Participant `t` has a node to spare, or an unused node is left.
    pub open spec fn can_claim(self, t: int) -> bool {
        self.participants[t].spare.len() > 0 || self.memory.fresh < self.memory.nodes()
    }

    /// The system with a node for participant `t` to claim: as it is where the
    /// participant can claim one, and else with the store enlarged to the room
    /// that a full store asks for.
    pub open spec fn provided(self, t: int) -> Model {
        if self.can_claim(t) {
            self
        } else {
            self.enlarged(grown(self.nodes()))
        }
    }

    /// This system and `start` differ at most in the phase of participant `t`.
    pub open spec fn same_but_phase(self, start: Model, t: int) -> bool {
        self.finish(t) == start.finish(t)
    }

    /// Participant `t` is on its way through a push of `value` that it began in
    /// the state `start`, undisturbed: either the push has not taken effect, or
    /// it has ended and the stack shows it. `claimable` says whether the
    /// participant could find a node when it began.
    pub open spec fn pushing(self, t: int, value: u64, start: Model, claimable: bool) -> bool {
        let base = start.content();
        let past = start.history;
        let before = self.content() == base && self.history == past;
        match self.participants[t].phase {
            Phase::ClaimLoad { value: v } => {
                &&& v == value
                &&& before
                &&& claimable <==> self.memory.fresh < self.memory.nodes()
                &&& self.same_but_phase(start, t)
            },
            Phase::ClaimCas { value: v, fresh } => {
                &&& v == value
                &&& before
                &&& claimable
                &&& fresh == self.memory.fresh
            },
            Phase::Fill { value: v, .. } => v == value && before && claimable,
            Phase::PushRead { value: v, .. } => v == value && before && claimable,
            Phase::Link { head, value: v, .. } => {
                &&& v == value
                &&& before
                &&& claimable
                &&& head == self.memory.head
            },
            Phase::PushCas { head, value: v, .. } => {
                &&& v == value
                &&& before
                &&& claimable
                &&& head == self.memory.head
            },
            Phase::Done(Outcome::Pushed) => {
                &&& claimable
                &&& self.content() == base.push(value)
                &&& self.history == past.push(Event { who: t as u64, op: Op::Push(value) })
            },
            Phase::Done(Outcome::Exhausted) => !claimable && before && self.same_but_phase(start, t),
            _ => false,
        }
    }

    /// The system `start` after participant `t` has run a pop that found the
    /// stack empty, and has handed that over: the history has the pop, the
    /// participant has its stamp and is idle, and nothing else has changed.
    pub open spec fn found_empty(start: Model, t: int) -> Model {
        Model {
            history: start.history.push(Event { who: t as u64, op: Op::PopEmpty }),
            stamps: start.stamps.update(t, start.history.len()),
            ..start.finish(t)
        }
    }

    /// Participant `t` is on its way through a pop that it began in the state
    /// `start`, undisturbed: either the pop has not taken effect, or it has and
    /// holds the payload that was on top.
    pub open spec fn popping(self, t: int, start: Model) -> bool {
        let base = start.content();
        let past = start.history;
        let before = self.content() == base && self.history == past;
        let after = {
            &&& base.len() > 0
            &&& self.content() == base.drop_last()
            &&& self.history == past.push(Event { who: t as u64, op: Op::Pop(base.last()) })
        };
        match self.participants[t].phase {
            Phase::PopRead => before && self.same_but_phase(start, t),
            Phase::Announce { node } => before && self.memory.head == node,
            Phase::Validate { node } => before && self.memory.head == node,
            Phase::Follow { node } => before && self.memory.head == node,
            Phase::PopCas { node, .. } => before && self.memory.head == node,
            Phase::Extract { node } => after && self.memory.value[node as int] == base.last(),
            Phase::Clear { value, .. } => after && value == base.last(),
            Phase::Scan { value, .. } => after && value == base.last(),
            Phase::Done(Outcome::Popped(value)) => after && value == base.last(),
            Phase::Done(Outcome::Empty) => {
                &&& base.len() == 0
                &&& self.content() == base
                &&& self.finish(t) == Model::found_empty(start, t)
            },
            _ => false,
        }
    }

    /// The stack is calm: no participant but participant 0 holds a node, no
    /// hazard slot names one, and participant 0 has none waiting to be
    /// released. A new stack is calm, and `push` and `pop` leave it so.
    pub open spec fn calm(self) -> bool {
        &&& self.participants.len() > 0
        &&& forall|t: int| 0 < t < self.participants.len() ==> #[trigger] self.held(t) == 0
        &&& forall|s: int|
            0 <= s < self.memory.hazard.len() ==> #[trigger] self.memory.hazard[s] == NIL
        &&& self.participants[0].retired.len() == 0
    }

    /// Participant 0 is on its way through a pop that it began on a calm stack.
    pub open spec fn calm_popping(self) -> bool {
        let p = self.participants[0];
        let clear = self.memory.hazard[0] == NIL;
        &&& self.participants.len() > 0
        &&& forall|t: int| 0 < t < self.participants.len() ==> #[trigger] self.held(t) == 0
        &&& forall|s: int|
            0 < s < self.memory.hazard.len() ==> #[trigger] self.memory.hazard[s] == NIL
        &&& match p.phase {
            Phase::Scan { .. } => {
                &&& clear
                &&& p.retired.len() == 1
                &&& forall|i: int| 0 <= i < p.seen.len() ==> #[trigger] p.seen[i] == NIL
            },
            Phase::PopRead => clear && p.retired.len() == 0,
            Phase::Done(_) => clear && p.retired.len() == 0,
            _ => p.retired.len() == 0,
        }
    }
}

/// Where only participant 0 holds nodes, the nodes held are those it holds.
pub proof fn lemma_held_by_first(m: Model, n: nat)
    requires
        0 < n <= m.participants.len(),
        forall|t: int| 0 < t < m.participants.len() ==> #[trigger] m.held(t) == 0,
    ensures
        m.held_below(n) == m.held(0),
    decreases n,
{
    if n > 1 {
        lemma_held_by_first(m, (n - 1) as nat);
        assert(m.held(n - 1) == 0);
    } else {
        assert(m.held_below(0) == 0);
    }
}

/// In an enlarged store every participant finds a node to claim; and a calm
/// stack stays calm when its store is enlarged.
pub proof fn lemma_enlarged_claim(m: Model, nodes: nat, t: int)
    requires
        m.inv(),
        m.nodes() < nodes <= NIL,
        0 <= t < m.participants.len(),
    ensures
        m.enlarged(nodes).can_claim(t),
        m.enlarged(nodes).participants[t].phase == m.participants[t].phase,
        m.calm() ==> m.enlarged(nodes).calm(),
{
    lemma_enlarged_inv(m, nodes);
    let m2 = m.enlarged(nodes);
    if m.calm() {
        assert forall|u: int| 0 < u < m2.participants.len() implies #[trigger] m2.held(u) == 0 by {
            assert(m.held(u) == 0);
        }
    }
}

/// On a calm stack, participant 0 finds a node for a push exactly when the
/// stack holds fewer payloads than the store has nodes.
pub proof fn lemma_calm_capacity(m: Model)
    requires
        m.inv(),
        m.calm(),
        !m.participants[0].phase.active(),
    ensures
        m.can_claim(0) <==> m.content().len() < m.nodes(),
        m.memory.fresh == m.content().len() + m.participants[0].spare.len(),
{
    lemma_held_by_first(m, m.participants.len());
}

/// A step of an undisturbed push on a calm stack leaves the stack calm.
pub proof fn lemma_calm_pushing_step(m: Model, value: u64, start: Model, claimable: bool)
    requires
        m.inv(),
        m.calm(),
        m.pushing(0, value, start, claimable),
    ensures
        m.step(0).calm(),
{
    let m2 = m.step(0);
    assert(m.seated(0));
    assert forall|t: int| 0 < t < m2.participants.len() implies #[trigger] m2.held(t) == 0 by {
        assert(m.held(t) == 0);
    }
}

/// A step of an undisturbed pop that began on a calm stack leaves it such a
/// pop; and when the pop has ended, the stack is calm again.
pub proof fn lemma_calm_popping_step(m: Model, start: Model)
    requires
        m.inv(),
        m.calm_popping(),
        m.popping(0, start),
    ensures
        m.step(0).calm_popping(),
{
    let m2 = m.step(0);
    let p = m.participants[0];
    assert(m.seated(0));
    assert(m.grounded(0));
    assert(m.holdings(0));
    if m.order.len() > 0 {
        assert(m.linked_at(m.order.len() - 1));
    }
    assert forall|t: int| 0 < t < m2.participants.len() implies #[trigger] m2.held(t) == 0 by {
        assert(m.held(t) == 0);
    }
    if p.phase is Scan {
        let cursor = p.phase->Scan_cursor;
        let word = m.memory.hazard[cursor as int];
        let seen2 = p.seen.push(word);
        assert(word == NIL);
        if !(cursor + 1 < p.peers) {
            let kept = p.retired.filter(named_in(seen2));
            lemma_filter_keeps(p.retired, named_in(seen2));
            if kept.len() > 0 {
                assert(kept.contains(kept[0]));
                let i = choose|i: int| 0 <= i < p.retired.len() && p.retired[i] == kept[0];
                let j = choose|j: int| 0 <= j < seen2.len() && seen2[j] == kept[0];
                assert(p.retired[i] < p.nodes);
                assert(seen2[j] == NIL);
            }
        }
    }
}

/// A step of an undisturbed push leaves it an undisturbed push.
pub proof fn lemma_pushing_step(m: Model, t: int, value: u64, start: Model, claimable: bool)
    requires
        m.inv(),
        0 <= t < m.participants.len(),
        start.participants.len() == m.participants.len(),
        m.pushing(t, value, start, claimable),
    ensures
        m.step(t).pushing(t, value, start, claimable),
{
    let m2 = m.step(t);
    if m.participants[t].phase is ClaimLoad {
        assert(m2.finish(t).participants =~= m.finish(t).participants);
    }
    assert(m.seated(t));
    assert(m.grounded(t));
    if m.order.len() > 0 {
        assert(m.linked_at(m.order.len() - 1));
    }
    lemma_step_inv(m, t);
}

/// A step of an undisturbed pop leaves it an undisturbed pop.
pub proof fn lemma_popping_step(m: Model, t: int, start: Model)
    requires
        m.inv(),
        0 <= t < m.participants.len(),
        start.participants.len() == m.participants.len(),
        m.popping(t, start),
    ensures
        m.step(t).popping(t, start),
{
    let m2 = m.step(t);
    if m.participants[t].phase is PopRead {
        assert(m2.finish(t).participants =~= m.finish(t).participants);
        assert(m.finish(t).participants =~= start.finish(t).participants);
    }
    assert(m.seated(t));
    assert(m.grounded(t));
    if m.order.len() > 0 {
        assert(m.linked_at(m.order.len() - 1));
    }
    lemma_step_inv(m, t);
}

} // verus!
