//! Schedules: the turns that the owner of a stack gives to its participants,
//! one after the other.

use vstd::prelude::*;
use crate::model::Event;
use crate::model::Model;
use crate::safety::lemma_begin_pop_inv;
use crate::safety::lemma_begin_push_inv;
use crate::safety::lemma_finish_inv;
use crate::safety::lemma_step_inv;
use crate::stack::LockFreeStack;

verus! {

/// One turn of one participant.
#[derive(Clone, Copy, PartialEq, Eq, Debug, Structural)]
pub enum Turn {
    /// The participant starts a push of the payload.
    BeginPush(usize, u64),
    /// The participant starts a pop.
    BeginPop(usize),
    /// The participant performs the action it waits on.
    Step(usize),
    /// The participant hands over how its operation ended.
    Finish(usize),
}

impl Turn {
    /// The participant whose turn it is.
    pub open spec fn who(self) -> int {
        match self {
            Turn::BeginPush(t, _) => t as int,
            Turn::BeginPop(t) => t as int,
            Turn::Step(t) => t as int,
            Turn::Finish(t) => t as int,
        }
    }
}

impl Model {
    /// Whether a turn changes anything: there is such a participant, it is free
    /// to start where the turn starts an operation, in the middle of one where
    /// the turn is a step, and done where the turn asks how it ended.
    pub open spec fn admits(self, turn: Turn) -> bool {
        let t = turn.who();
        &&& 0 <= t < self.participants.len()
        &&& match turn {
            Turn::BeginPush(_, _) => !self.participants[t].phase.active(),
            Turn::BeginPop(_) => !self.participants[t].phase.active(),
            Turn::Step(_) => self.participants[t].phase.active(),
            Turn::Finish(_) => self.participants[t].phase is Done,
        }
    }

    /// The system after a turn. A turn that the system does not admit leaves it
    /// as it is.
    pub open spec fn turn(self, turn: Turn) -> Model {
        if self.admits(turn) {
            match turn {
                Turn::BeginPush(t, value) => self.begin_push(t as int, value),
                Turn::BeginPop(t) => self.begin_pop(t as int),
                Turn::Step(t) => self.step(t as int),
                Turn::Finish(t) => self.finish(t as int),
            }
        } else {
            self
        }
    }

    /// The operation that takes effect in a turn, if one does.
    pub open spec fn turn_event(self, turn: Turn) -> Option<Event> {
        match turn {
            Turn::Step(t) => if self.admits(turn) {
                self.event(t as int)
            } else {
                None
            },
            _ => None,
        }
    }

    /// The system after the turns of a schedule, first to last.
    pub open spec fn play(self, turns: Seq<Turn>) -> Model
        decreases turns.len(),
    {
        if turns.len() == 0 {
            self
        } else {
            self.play(turns.drop_last()).turn(turns.last())
        }
    }
}

/// A turn keeps the invariant, and adds to the history the operation that
/// takes effect in it, if one does.
pub proof fn lemma_turn_inv(m: Model, turn: Turn)
    requires
        m.inv(),
    ensures
        m.turn(turn).inv(),
        m.turn(turn).participants.len() == m.participants.len(),
        m.turn(turn).history == (match m.turn_event(turn) {
            Some(e) => m.history.push(e),
            None => m.history,
        }),
{
    if m.admits(turn) {
        match turn {
            Turn::BeginPush(t, value) => lemma_begin_push_inv(m, t as int, value),
            Turn::BeginPop(t) => lemma_begin_pop_inv(m, t as int),
            Turn::Step(t) => lemma_step_inv(m, t as int),
            Turn::Finish(t) => lemma_finish_inv(m, t as int),
        }
    }
}

/// Every state that a schedule leads to, from a state within the invariant, is
/// within the invariant; and the history only grows.
pub proof fn lemma_play_inv(m: Model, turns: Seq<Turn>)
    requires
        m.inv(),
    ensures
        m.play(turns).inv(),
        m.play(turns).participants.len() == m.participants.len(),
        m.history.len() <= m.play(turns).history.len(),
        m.play(turns).history.take(m.history.len() as int) == m.history,
    decreases turns.len(),
{
    if turns.len() == 0 {
        assert(m.history.take(m.history.len() as int) =~= m.history);
    } else {
        lemma_play_inv(m, turns.drop_last());
        let before = m.play(turns.drop_last());
        lemma_turn_inv(before, turns.last());
        assert(m.play(turns).history.take(m.history.len() as int) =~= before.history.take(
            m.history.len() as int,
        ));
    }
}

impl LockFreeStack {
    /// Gives one turn. Hands back the operation that took effect in it, if one
    /// did.
    pub fn turn(&mut self, turn: Turn) -> (event: Option<Event>)
        requires
            old(self).wf(),
        ensures
            final(self).wf(),
            final(self)@ == old(self)@.turn(turn),
            event == old(self)@.turn_event(turn),
            final(self)@.history == (match event {
                Some(e) => old(self)@.history.push(e),
                None => old(self)@.history,
            }),
    {
        proof {
            lemma_turn_inv(self@, turn);
        }
        match turn {
            Turn::BeginPush(t, value) => {
                let _ = self.begin_push(t, value);
                None
            },
            Turn::BeginPop(t) => {
                let _ = self.begin_pop(t);
                None
            },
            Turn::Step(t) => self.step(t),
            Turn::Finish(t) => {
                let _ = self.finish(t);
                None
            },
        }
    }

    /// Gives the turns of a schedule, first to last. Hands back the operations
    /// that took effect, in the order in which they did.
    pub fn play(&mut self, turns: &Vec<Turn>) -> (events: Vec<Event>)
        requires
            old(self).wf(),
        ensures
            final(self).wf(),
            final(self)@ == old(self)@.play(turns@),
            final(self)@.history == old(self)@.history + events@,
    {
        let ghost first = self@;
        let mut events: Vec<Event> = Vec::new();
        let mut i: usize = 0;
        assert(turns@.take(0) =~= Seq::<Turn>::empty());
        assert(first.history + events@ =~= first.history);
        while i < turns.len()
            invariant
                i <= turns.len(),
                self.wf(),
                self@ == first.play(turns@.take(i as int)),
                self@.history == first.history + events@,
            decreases turns.len() - i,
        {
            let ghost before = self@;
            let ghost seen = events@;
            assert(turns@.take(i + 1).drop_last() =~= turns@.take(i as int));
            match self.turn(turns[i]) {
                Some(e) => {
                    events.push(e);
                    assert(first.history + events@ =~= (first.history + seen).push(e));
                },
                None => {},
            }
            i += 1;
        }
        assert(turns@.take(i as int) =~= turns@);
        events
    }
}

} // verus!
