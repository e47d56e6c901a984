//! The stack: the cells and the participants under one owner, who lets the
//! participants take their steps in whatever order it likes.

use vstd::prelude::*;
use crate::cell::Cell;
use crate::cell::NIL;
use crate::memory::Memory;
use crate::model::pop_of;
use crate::model::rest;
use crate::model::top;
use crate::model::Event;
use crate::model::Model;
use crate::model::Op;
use crate::model::Status;
use crate::participant::Outcome;
use crate::participant::Participant;
use crate::participant::Phase;
use crate::safety::lemma_begin_pop_inv;
use crate::safety::lemma_enlarged_inv;
use crate::solo::lemma_enlarged_claim;
use crate::vector::grown;
use crate::vector::next_room;
use crate::safety::lemma_begin_push_inv;
use crate::safety::lemma_finish_inv;
use crate::safety::lemma_start_inv;
use crate::safety::lemma_step_inv;
use crate::solo::lemma_calm_capacity;
use crate::solo::lemma_calm_popping_step;
use crate::solo::lemma_calm_pushing_step;
use crate::solo::lemma_popping_step;
use crate::solo::lemma_pushing_step;
use crate::progress::lemma_own_step;

verus! {

/// The number of nodes in the store of `LockFreeStack::new`.
pub const DEFAULT_NODES: usize = 1024;

/// The number of participants of `LockFreeStack::new`.
pub const DEFAULT_PEERS: usize = 8;

/// A push found no node to link.
#[derive(Clone, Copy, PartialEq, Eq, Debug, Structural)]
pub struct AllocationFailure;

/// What a push hands back for the way it ended: `Ok` when it ended as pushed,
/// and else the failure.
pub fn push_result(outcome: Outcome) -> (r: Result<(), AllocationFailure>)
    ensures
        r is Ok <==> outcome == Outcome::Pushed,
{
    match outcome {
        Outcome::Pushed => Ok(()),
        _ => Err(AllocationFailure),
    }
}

/// What a pop hands back for the way it ended: the payload when it ended with
/// one, and else nothing.
pub fn pop_result(outcome: Outcome) -> (r: Option<u64>)
    ensures
        r == (match outcome {
            Outcome::Popped(value) => Some(value),
            _ => None,
        }),
{
    match outcome {
        Outcome::Popped(value) => Some(value),
        _ => None,
    }
}

/// The number of participants of a stack that was asked to have `peers`: one
/// at least.
pub open spec fn at_least_one(peers: nat) -> nat {
    if peers == 0 {
        1
    } else {
        peers
    }
}

/// A lock-free stack of `u64` payloads, with its participants.
///
/// The payloads are words, because the cells are: a stack of other values keeps
/// them in a table of its own and pushes their places in it.
pub struct LockFreeStack {
    memory: Memory,
    participants: Vec<Participant>,
    order: Ghost<Seq<u64>>,
    status: Ghost<Seq<Status>>,
    history: Ghost<Seq<Event>>,
    stamps: Ghost<Seq<nat>>,
}

impl View for LockFreeStack {
    type V = Model;

    closed spec fn view(&self) -> Model {
        Model {
            memory: self.memory@,
            participants: Seq::new(self.participants@.len(), |t: int| self.participants@[t]@),
            order: self.order@,
            status: self.status@,
            history: self.history@,
            stamps: self.stamps@,
        }
    }
}

impl LockFreeStack {
    /// The stack is in a state that it can reach from a new one.
    pub open spec fn wf(&self) -> bool {
        self@.inv()
    }

    /// The payloads on the stack, bottom first.
    pub open spec fn content(&self) -> Seq<u64> {
        self@.content()
    }

    /// Participant 0, through which `push` and `pop` work, exists and is not in
    /// the middle of an operation.
    pub open spec fn ready(&self) -> bool {
        self@.peers() > 0 && !self@.participants[0].phase.active()
    }

    /// No participant but participant 0 holds a node, no hazard slot names
    /// one, and participant 0 has none waiting to be released: the state of a
    /// stack that has only been used through `push`, `pop` and `drain`.
    pub open spec fn calm(&self) -> bool {
        self@.calm()
    }

    /// An empty stack over `DEFAULT_NODES` nodes, with `DEFAULT_PEERS` idle
    /// participants.
    pub fn new() -> (s: LockFreeStack)
        ensures
            s@ == Model::start(DEFAULT_NODES as nat, DEFAULT_PEERS as nat),
            s@.nodes() == DEFAULT_NODES,
            s.wf(),
            s.ready(),
            s.calm(),
            s.content() == Seq::<u64>::empty(),
    {
        LockFreeStack::with_capacity(DEFAULT_NODES, DEFAULT_PEERS)
    }

    /// An empty stack over `nodes` nodes, with `peers` idle participants, and
    /// with one where `peers` is 0: `push` and `pop` work through the first.
    pub fn with_capacity(nodes: usize, peers: usize) -> (s: LockFreeStack)
        ensures
            s@ == Model::start(nodes as nat, at_least_one(peers as nat)),
            s.wf(),
            s.ready(),
            s.calm(),
            s.content() == Seq::<u64>::empty(),
    {
        let seats: usize = if peers == 0 {
            1
        } else {
            peers
        };
        let ghost start = Model::start(nodes as nat, seats as nat);
        let mut participants: Vec<Participant> = Vec::new();
        let mut t: usize = 0;
        while t < seats
            invariant
                t <= seats,
                start == Model::start(nodes as nat, seats as nat),
                participants@.len() == t,
                forall|u: int| 0 <= u < t ==> (#[trigger] participants@[u])@ == start.participants[u],
            decreases seats - t,
        {
            match Participant::new(t as u64, nodes as u64, seats as u64) {
                Some(p) => {
                    participants.push(p);
                },
                None => {},
            }
            t += 1;
        }
        let s = LockFreeStack {
            memory: Memory::new(nodes, seats),
            participants,
            order: Ghost(start.order),
            status: Ghost(start.status),
            history: Ghost(start.history),
            stamps: Ghost(start.stamps),
        };
        proof {
            assert(s@.participants =~= start.participants);
            lemma_start_inv(nodes as nat, seats as nat);
        }
        s
    }

    /// Enlarges the node store to the room that a full store asks for: one
    /// node after none, else twice as many. The stack and what the participants
    /// hold stay as they are. Says whether it did: it does not when the room is
    /// more than a `usize` can count, or when the allocator refuses it; the
    /// store then stays as it was.
    pub fn enlarge(&mut self) -> (grew: bool)
        requires
            old(self).wf(),
        ensures
            final(self).wf(),
            final(self)@ == (if grew {
                old(self)@.enlarged(grown(old(self)@.nodes()))
            } else {
                old(self)@
            }),
            grown(old(self)@.nodes()) > usize::MAX ==> !grew,
            final(self).content() == old(self).content(),
            old(self).ready() ==> final(self).ready(),
            old(self).calm() ==> final(self).calm(),
    {
        let ghost before = self@;
        let have: usize = self.memory.node_count();
        let room: usize = match next_room(have) {
            Some(room) => room,
            None => {
                return false;
            },
        };
        proof {
            lemma_enlarged_inv(before, room as nat);
            if before.participants.len() > 0 {
                lemma_enlarged_claim(before, room as nat, 0);
            }
        }
        if !self.memory.enlarge(room) {
            return false;
        }
        let mut t: usize = 0;
        while t < self.participants.len()
            invariant
                before.inv(),
                t <= self.participants@.len(),
                self@.memory == before.memory.enlarged(room as nat),
                self@.order == before.order,
                self@.status == before.status,
                self@.history == before.history,
                self@.stamps == before.stamps,
                self@.participants.len() == before.participants.len(),
                forall|u: int|
                    0 <= u < t ==> #[trigger] self@.participants[u]
                        == before.participants[u].enlarged(room as u64),
                forall|u: int|
                    t <= u < before.participants.len() ==> #[trigger] self@.participants[u]
                        == before.participants[u],
            decreases self.participants@.len() - t,
        {
            proof {
                assert(before.seated(t as int));
                assert(self@.participants[t as int] == before.participants[t as int]);
            }
            let ghost earlier = self@;
            self.participants[t].enlarge(room as u64);
            proof {
                assert forall|u: int| 0 <= u <= t implies #[trigger] self@.participants[u]
                    == before.participants[u].enlarged(room as u64) by {
                    if u < t {
                        assert(self@.participants[u] == earlier.participants[u]);
                    }
                }
                assert forall|u: int| t < u < before.participants.len() implies #[trigger] self@.participants[u]
                    == before.participants[u] by {
                    assert(self@.participants[u] == earlier.participants[u]);
                }
            }
            t += 1;
        }
        proof {
            self.status@ = before.enlarged(room as nat).status;
            assert(self@.participants =~= before.enlarged(room as nat).participants);
        }
        true
    }

    /// Whether participant `t` has a node to spare, or an unused node is left.
    fn can_claim(&self, t: usize) -> (b: bool)
        requires
            self.wf(),
            t < self@.peers(),
        ensures
            b == self@.can_claim(t as int),
    {
        proof {
            assert(self@.seated(t as int));
        }
        self.participants[t].spare_len() > 0 || self.memory.read(Cell::Fresh)
            < self.participants[t].nodes()
    }

    /// The number of nodes in the store.
    pub fn node_count(&self) -> (n: usize)
        ensures
            n == self@.nodes(),
    {
        self.memory.node_count()
    }

    /// The number of participants.
    pub fn peers(&self) -> (n: usize)
        ensures
            n == self@.peers(),
    {
        self.participants.len()
    }

    /// Participant `t`; none when there is no such participant.
    pub fn participant(&self, t: usize) -> (p: Option<&Participant>)
        ensures
            p is Some <==> t < self@.peers(),
            p matches Some(q) ==> q@ == self@.participants[t as int],
    {
        if t < self.participants.len() {
            Some(&self.participants[t])
        } else {
            None
        }
    }

    /// Where participant `t` stands; none when there is no such participant.
    pub fn phase(&self, t: usize) -> (phase: Option<Phase>)
        ensures
            phase == (if t < self@.peers() {
                Some(self@.participants[t as int].phase)
            } else {
                None
            }),
    {
        if t < self.participants.len() {
            Some(self.participants[t].phase())
        } else {
            None
        }
    }

    /// The effect that the next step of participant `t` has on the stack, if
    /// it has one.
    fn upcoming(&self, t: usize) -> (event: Option<Event>)
        requires
            self.wf(),
            t < self@.peers(),
        ensures
            event == self@.event(t as int),
    {
        proof {
            assert(self@.seated(t as int));
        }
        let head: u64 = self.memory.read(Cell::Head);
        let op = match self.participants[t].phase() {
            Phase::PushCas { head: seen, value, .. } => if head == seen {
                Some(Op::Push(value))
            } else {
                None
            },
            Phase::PopCas { node, .. } => if head == node {
                Some(Op::Pop(self.memory.read(Cell::Value(node))))
            } else {
                None
            },
            Phase::PopRead => if head == NIL {
                Some(Op::PopEmpty)
            } else {
                None
            },
            _ => None,
        };
        match op {
            Some(op) => Some(Event { who: t as u64, op }),
            None => None,
        }
    }

    /// Lets participant `t` perform the action it waits on and take the reply.
    /// Hands back the effect on the stack, if the step had one. Where there is
    /// no such participant, or it waits on nothing, nothing happens.
    pub fn step(&mut self, t: usize) -> (event: Option<Event>)
        requires
            old(self).wf(),
        ensures
            final(self).wf(),
            final(self)@ == old(self)@.step(t as int),
            event == old(self)@.event(t as int),
            final(self)@.history == (match event {
                Some(e) => old(self)@.history.push(e),
                None => old(self)@.history,
            }),
    {
        if t >= self.participants.len() {
            return None;
        }
        let ghost before = self@;
        proof {
            assert(before.seated(t as int));
            lemma_step_inv(before, t as int);
        }
        let action = match self.participants[t].action() {
            Some(a) => a,
            None => {
                return None;
            },
        };
        let event = self.upcoming(t);
        let reply = self.memory.perform(action);
        self.participants[t].advance(reply);
        proof {
            self.order@ = before.order_after(t as int);
            self.status@ = before.status_after(t as int);
            self.history@ = before.history_after(t as int);
            self.stamps@ = before.stamps_after(t as int);
            assert(self@.participants =~= before.step(t as int).participants);
        }
        event
    }

    /// Starts a push of `value` by participant `t`. Says whether it did: it
    /// does not where there is no such participant or it is in the middle of an
    /// operation.
    pub fn begin_push(&mut self, t: usize, value: u64) -> (started: bool)
        requires
            old(self).wf(),
        ensures
            final(self).wf(),
            started <==> t < old(self)@.peers() && !old(self)@.participants[t as int].phase.active(),
            final(self)@ == (if started {
                old(self)@.begin_push(t as int, value)
            } else {
                old(self)@
            }),
            final(self).content() == old(self).content(),
    {
        if t >= self.participants.len() {
            return false;
        }
        let ghost before = self@;
        proof {
            assert(before.seated(t as int));
        }
        if self.participants[t].phase().is_active() {
            return false;
        }
        proof {
            lemma_begin_push_inv(before, t as int, value);
        }
        let _ = self.participants[t].begin_push(value);
        proof {
            self.status@ = before.begin_push(t as int, value).status;
            assert(self@.participants =~= before.begin_push(t as int, value).participants);
        }
        true
    }

    /// Starts a pop by participant `t`. Says whether it did: it does not where
    /// there is no such participant or it is in the middle of an operation.
    pub fn begin_pop(&mut self, t: usize) -> (started: bool)
        requires
            old(self).wf(),
        ensures
            final(self).wf(),
            started <==> t < old(self)@.peers() && !old(self)@.participants[t as int].phase.active(),
            final(self)@ == (if started {
                old(self)@.begin_pop(t as int)
            } else {
                old(self)@
            }),
            final(self).content() == old(self).content(),
    {
        if t >= self.participants.len() {
            return false;
        }
        let ghost before = self@;
        proof {
            assert(before.seated(t as int));
        }
        if self.participants[t].phase().is_active() {
            return false;
        }
        proof {
            lemma_begin_pop_inv(before, t as int);
        }
        let _ = self.participants[t].begin_pop();
        proof {
            assert(self@.participants =~= before.begin_pop(t as int).participants);
        }
        true
    }

    /// How the operation of participant `t` ended, if it has; the participant
    /// is idle afterwards.
    pub fn finish(&mut self, t: usize) -> (o: Option<Outcome>)
        requires
            old(self).wf(),
        ensures
            final(self).wf(),
            o == (if t < old(self)@.peers() {
                match old(self)@.participants[t as int].phase {
                    Phase::Done(outcome) => Some(outcome),
                    _ => None,
                }
            } else {
                None
            }),
            final(self)@ == (if o is Some {
                old(self)@.finish(t as int)
            } else {
                old(self)@
            }),
            final(self).content() == old(self).content(),
            o != Some(Outcome::Corrupt),
    {
        if t >= self.participants.len() {
            return None;
        }
        let ghost before = self@;
        proof {
            assert(before.seated(t as int));
            assert(before.grounded(t as int));
            if before.participants[t as int].phase is Done {
                lemma_finish_inv(before, t as int);
            }
        }
        let o = self.participants[t].finish();
        proof {
            if o is Some {
                assert(self@.participants =~= before.finish(t as int).participants);
            } else {
                assert(self@.participants =~= before.participants);
            }
        }
        o
    }

    /// Whether participant `t` is in the middle of an operation.
    pub fn busy(&self, t: usize) -> (b: bool)
        ensures
            b <==> t < self@.peers() && self@.participants[t as int].phase.active(),
    {
        match self.phase(t) {
            Some(phase) => phase.is_active(),
            None => false,
        }
    }

    /// Pushes `value`: participant 0 runs a whole push while nobody else takes
    /// a step. Where the participant has no node to spare and no unused node
    /// is left, the store is enlarged first. Fails, and leaves everything as it
    /// was, only when the store had to be enlarged and could not be.
    pub fn push(&mut self, value: u64) -> (r: Result<(), AllocationFailure>)
        requires
            old(self).wf(),
            old(self).ready(),
        ensures
            final(self).wf(),
            final(self).ready(),
            old(self)@.can_claim(0) ==> r is Ok,
            old(self).calm() && old(self).content().len() < old(self)@.nodes() ==> r is Ok,
            grown(old(self)@.nodes()) > usize::MAX && !old(self)@.can_claim(0) ==> r is Err,
            r is Ok ==> final(self)@ == old(self)@.provided(0).begin_push(0, value).settle(
                0,
            ).finish(0),
            r is Err ==> final(self)@ == old(self)@,
            old(self).calm() ==> final(self).calm(),
            final(self).content() == (if r is Ok {
                old(self).content().push(value)
            } else {
                old(self).content()
            }),
            final(self)@.history == (if r is Ok {
                old(self)@.history.push(Event { who: 0, op: Op::Push(value) })
            } else {
                old(self)@.history
            }),
            final(self)@.nodes() == (if r is Ok {
                old(self)@.provided(0).nodes()
            } else {
                old(self)@.nodes()
            }),
            final(self)@.participants.len() == old(self)@.participants.len(),
            r is Ok ==> forall|t: int|
                0 < t < old(self)@.participants.len() ==> final(self)@.participants[t] == old(
                    self,
                )@.provided(0).participants[t],
    {
        let ghost entry = self@;
        proof {
            if entry.calm() {
                lemma_calm_capacity(entry);
            }
        }
        if !self.can_claim(0) {
            proof {
                if grown(entry.nodes()) <= usize::MAX {
                    lemma_enlarged_claim(entry, grown(entry.nodes()), 0);
                }
            }
            if !self.enlarge() {
                return Err(AllocationFailure);
            }
        }
        let ghost first = self@;
        assert(first == entry.provided(0));
        assert(first.can_claim(0));
        let started = self.begin_push(0, value);
        assert(started);
        proof {
            if first.participants[0].spare.len() == 0 {
                assert(self@.finish(0).participants =~= first.finish(0).participants);
            }
            if first.calm() {
                assert forall|t: int| 0 < t < self@.participants.len() implies #[trigger] self@.held(
                    t,
                ) == 0 by {
                    assert(first.held(t) == 0);
                }
            }
        }
        while self.busy(0)
            invariant
                self.wf(),
                first.calm() ==> self@.calm(),
                self@.nodes() == first.nodes(),
                self@.participants.len() == first.participants.len(),
                self@.participants.len() > 0,
                self@.pushing(0, value, first, true),
                self@.settle(0) == first.begin_push(0, value).settle(0),
                forall|t: int|
                    0 < t < first.participants.len() ==> self@.participants[t]
                        == first.participants[t],
            decreases self@.rank(0),
        {
            proof {
                lemma_pushing_step(self@, 0, value, first, true);
                lemma_own_step(self@, 0);
                if first.calm() {
                    lemma_calm_pushing_step(self@, value, first, true);
                }
            }
            let _ = self.step(0);
        }
        let ghost last = self@;
        let o = self.finish(0);
        proof {
            if first.calm() {
                assert forall|t: int| 0 < t < self@.participants.len() implies #[trigger] self@.held(
                    t,
                ) == 0 by {
                    assert(last.held(t) == 0);
                }
            }
        }
        match o {
            Some(outcome) => push_result(outcome),
            None => Err(AllocationFailure),
        }
    }

    /// Pops the top payload: participant 0 runs a whole pop while nobody else
    /// takes a step. On an empty stack the result is `None` and the content
    /// stays empty.
    pub fn pop(&mut self) -> (r: Option<u64>)
        requires
            old(self).wf(),
            old(self).ready(),
        ensures
            final(self).wf(),
            final(self).ready(),
            final(self)@ == old(self)@.begin_pop(0).settle(0).finish(0),
            r == top(old(self).content()),
            final(self).content() == rest(old(self).content()),
            r is None ==> final(self)@ == Model::found_empty(old(self)@, 0),
            old(self).calm() ==> final(self).calm(),
            final(self)@.nodes() == old(self)@.nodes(),
            final(self)@.history == old(self)@.history.push(
                Event { who: 0, op: pop_of(old(self).content()) },
            ),
            final(self)@.participants.len() == old(self)@.participants.len(),
            forall|t: int|
                0 < t < old(self)@.participants.len() ==> final(self)@.participants[t]
                    == old(self)@.participants[t],
    {
        let ghost first = self@;
        let started = self.begin_pop(0);
        assert(started);
        proof {
            assert(self@.finish(0).participants =~= first.finish(0).participants);
            if first.calm() {
                assert forall|t: int| 0 < t < self@.participants.len() implies #[trigger] self@.held(
                    t,
                ) == 0 by {
                    assert(first.held(t) == 0);
                }
            }
        }
        while self.busy(0)
            invariant
                self.wf(),
                first.calm() ==> self@.calm_popping(),
                self@.nodes() == first.nodes(),
                self@.participants.len() == first.participants.len(),
                self@.participants.len() > 0,
                self@.popping(0, first),
                self@.settle(0) == first.begin_pop(0).settle(0),
                forall|t: int|
                    0 < t < first.participants.len() ==> self@.participants[t]
                        == first.participants[t],
            decreases self@.rank(0),
        {
            proof {
                lemma_popping_step(self@, 0, first);
                lemma_own_step(self@, 0);
                if first.calm() {
                    lemma_calm_popping_step(self@, first);
                }
            }
            let _ = self.step(0);
        }
        let ghost last = self@;
        let o = self.finish(0);
        proof {
            if first.calm() {
                assert forall|t: int| 0 < t < self@.participants.len() implies #[trigger] self@.held(
                    t,
                ) == 0 by {
                    assert(last.held(t) == 0);
                }
            }
        }
        match o {
            Some(outcome) => pop_result(outcome),
            None => None,
        }
    }

    /// Pops until the stack is empty, and hands back the payloads in the order
    /// in which they came off: top first.
    pub fn drain(&mut self) -> (out: Vec<u64>)
        requires
            old(self).wf(),
            old(self).ready(),
        ensures
            final(self).wf(),
            final(self).ready(),
            final(self).content() == Seq::<u64>::empty(),
            out@ == old(self).content().reverse(),
            old(self).calm() ==> final(self).calm(),
            final(self)@.nodes() == old(self)@.nodes(),
    {
        let ghost base = self.content();
        let ghost first = self@;
        let mut out: Vec<u64> = Vec::new();
        loop
            invariant
                self.wf(),
                self.ready(),
                first.calm() ==> self.calm(),
                self@.nodes() == first.nodes(),
                self.content().len() + out@.len() == base.len(),
                self.content() == base.take(self.content().len() as int),
                forall|i: int| 0 <= i < out@.len() ==> out@[i] == base[base.len() - 1 - i],
            ensures
                self.content().len() == 0,
            decreases self.content().len(),
        {
            match self.pop() {
                Some(value) => {
                    out.push(value);
                    assert(self.content() =~= base.take(self.content().len() as int));
                },
                None => {
                    break ;
                },
            }
        }
        assert(out@ =~= base.reverse());
        assert(self.content() =~= Seq::<u64>::empty());
        out
    }
}

} // verus!
