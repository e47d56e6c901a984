//! One participant of the stack: what it is in the middle of, what it asks of
//! shared memory next, and what it does with the reply.
//!
//! A participant owns one hazard slot, the nodes it has unlinked and not yet
//! released (`retired`), and the released nodes it may link again (`spare`).

use vstd::prelude::*;
use crate::cell::is_link;
use crate::cell::Action;
use crate::cell::Cell;
use crate::cell::Reply;
use crate::cell::NIL;
use crate::reclaim::absent_from;
use crate::reclaim::lemma_filter_keeps;
use crate::reclaim::named_in;
use crate::reclaim::release;

verus! {

/// How an operation ended.
#[derive(Clone, Copy, PartialEq, Eq, Debug, Structural)]
pub enum Outcome {
    /// The push linked its node.
    Pushed,
    /// The push found no node to link: none to spare, none unused.
    Exhausted,
    /// The pop unlinked a node that held this payload.
    Popped(u64),
    /// The pop found the stack empty.
    Empty,
    /// Shared memory answered with a word that names no node, or with a reply
    /// of the wrong kind.
    Corrupt,
}

/// Where a participant stands in its operation. Every phase but `Idle` and
/// `Done` waits for the reply to one action.
#[derive(Clone, Copy, PartialEq, Eq, Debug, Structural)]
pub enum Phase {
    /// No operation.
    Idle,
    /// Push: read the count of nodes handed out.
    ClaimLoad { value: u64 },
    /// Push: claim the node `fresh` by moving the count past it.
    ClaimCas { value: u64, fresh: u64 },
    /// Push: write the payload into the node.
    Fill { node: u64, value: u64 },
    /// Push: read the head.
    PushRead { node: u64, value: u64 },
    /// Push: point the node at the head that was read.
    Link { node: u64, head: u64, value: u64 },
    /// Push: swing the head from the head that was read to the node.
    PushCas { node: u64, head: u64, value: u64 },
    /// Pop: read the head.
    PopRead,
    /// Pop: announce the node in the hazard slot.
    Announce { node: u64 },
    /// Pop: read the head again, to see that the announced node is still on top.
    Validate { node: u64 },
    /// Pop: clear the hazard slot, then start over.
    Withdraw,
    /// Pop: read the link of the protected node.
    Follow { node: u64 },
    /// Pop: swing the head from the protected node to the node below it.
    PopCas { node: u64, next: u64 },
    /// Pop: read the payload of the unlinked node.
    Extract { node: u64 },
    /// Pop: clear the hazard slot, then retire the node.
    Clear { node: u64, value: u64 },
    /// Pop: read the hazard slot `cursor`; after the last slot, release every
    /// retired node that no slot named.
    Scan { value: u64, cursor: u64 },
    /// The operation ended.
    Done(Outcome),
}

/// What a participant holds.
pub struct ParticipantView {
    pub slot: u64,
    pub nodes: u64,
    pub peers: u64,
    pub phase: Phase,
    pub retired: Seq<u64>,
    pub spare: Seq<u64>,
    pub seen: Seq<u64>,
}

impl Phase {
    /// Whether the words in the phase are in range for a store of `nodes` nodes
    /// and `peers` hazard slots.
    pub open spec fn fits(self, nodes: u64, peers: u64) -> bool {
        match self {
            Phase::ClaimCas { fresh, .. } => fresh < nodes,
            Phase::Fill { node, .. } => node < nodes,
            Phase::PushRead { node, .. } => node < nodes,
            Phase::Link { node, head, .. } => node < nodes && is_link(head, nodes),
            Phase::PushCas { node, head, .. } => node < nodes && is_link(head, nodes),
            Phase::Announce { node } => node < nodes,
            Phase::Validate { node } => node < nodes,
            Phase::Follow { node } => node < nodes,
            Phase::PopCas { node, next } => node < nodes && is_link(next, nodes),
            Phase::Extract { node } => node < nodes,
            Phase::Clear { node, .. } => node < nodes,
            Phase::Scan { cursor, .. } => cursor < peers,
            _ => true,
        }
    }

    /// Whether an operation is under way: the participant waits for a reply.
    pub open spec fn active(self) -> bool {
        !(self is Idle) && !(self is Done)
    }

    /// The phase belongs to a push: on its way, or at one of its ends.
    pub open spec fn of_push(self) -> bool {
        match self {
            Phase::ClaimLoad { .. } => true,
            Phase::ClaimCas { .. } => true,
            Phase::Fill { .. } => true,
            Phase::PushRead { .. } => true,
            Phase::Link { .. } => true,
            Phase::PushCas { .. } => true,
            Phase::Done(Outcome::Pushed) => true,
            Phase::Done(Outcome::Exhausted) => true,
            Phase::Done(Outcome::Corrupt) => true,
            _ => false,
        }
    }

    /// The phase belongs to a pop: on its way, or at one of its ends.
    pub open spec fn of_pop(self) -> bool {
        match self {
            Phase::PopRead => true,
            Phase::Announce { .. } => true,
            Phase::Validate { .. } => true,
            Phase::Withdraw => true,
            Phase::Follow { .. } => true,
            Phase::PopCas { .. } => true,
            Phase::Extract { .. } => true,
            Phase::Clear { .. } => true,
            Phase::Scan { .. } => true,
            Phase::Done(Outcome::Popped(_)) => true,
            Phase::Done(Outcome::Empty) => true,
            Phase::Done(Outcome::Corrupt) => true,
            _ => false,
        }
    }

    /// Whether an operation is under way: the participant waits for a reply.
    pub fn is_active(self) -> (b: bool)
        ensures
            b == self.active(),
    {
        match self {
            Phase::Idle => false,
            Phase::Done(_) => false,
            _ => true,
        }
    }
}

impl ParticipantView {
    /// A participant that has not done anything yet.
    pub open spec fn start(slot: u64, nodes: u64, peers: u64) -> ParticipantView {
        ParticipantView {
            slot,
            nodes,
            peers,
            phase: Phase::Idle,
            retired: Seq::empty(),
            spare: Seq::empty(),
            seen: Seq::empty(),
        }
    }

    /// Every node that the participant holds exists.
    pub open spec fn lists_fit(self) -> bool {
        &&& forall|i: int| 0 <= i < self.retired.len() ==> #[trigger] self.retired[i] < self.nodes
        &&& forall|i: int| 0 <= i < self.spare.len() ==> #[trigger] self.spare[i] < self.nodes
    }

    /// The participant's own consistency: its slot exists, its nodes exist, and
    /// while it scans it holds one finding for each slot it has read.
    pub open spec fn wf(self) -> bool {
        &&& self.slot < self.peers
        &&& self.phase.fits(self.nodes, self.peers)
        &&& self.lists_fit()
        &&& self.phase matches Phase::Scan { cursor, .. } ==> self.seen.len() == cursor
    }

    /// The participant after the store was enlarged to `nodes` nodes. A store
    /// that was as large already leaves it as it is.
    pub open spec fn enlarged(self, nodes: u64) -> ParticipantView {
        if nodes <= self.nodes {
            self
        } else {
            ParticipantView { nodes, ..self }
        }
    }

    /// The same participant in another phase.
    pub open spec fn at(self, phase: Phase) -> ParticipantView {
        ParticipantView { phase, ..self }
    }

    /// The action that the participant waits on; none when it is idle or done.
    pub open spec fn action(self) -> Option<Action> {
        match self.phase {
            Phase::Idle => None,
            Phase::Done(_) => None,
            Phase::ClaimLoad { .. } => Some(Action::Load(Cell::Fresh)),
            Phase::ClaimCas { fresh, .. } => Some(
                Action::Cas(Cell::Fresh, fresh, (fresh + 1) as u64),
            ),
            Phase::Fill { node, value } => Some(Action::Store(Cell::Value(node), value)),
            Phase::PushRead { .. } => Some(Action::Load(Cell::Head)),
            Phase::Link { node, head, .. } => Some(Action::Store(Cell::Next(node), head)),
            Phase::PushCas { node, head, .. } => Some(Action::Cas(Cell::Head, head, node)),
            Phase::PopRead => Some(Action::Load(Cell::Head)),
            Phase::Announce { node } => Some(Action::Store(Cell::Hazard(self.slot), node)),
            Phase::Validate { .. } => Some(Action::Load(Cell::Head)),
            Phase::Withdraw => Some(Action::Store(Cell::Hazard(self.slot), NIL)),
            Phase::Follow { node } => Some(Action::Load(Cell::Next(node))),
            Phase::PopCas { node, next } => Some(Action::Cas(Cell::Head, node, next)),
            Phase::Extract { node } => Some(Action::Load(Cell::Value(node))),
            Phase::Clear { .. } => Some(Action::Store(Cell::Hazard(self.slot), NIL)),
            Phase::Scan { cursor, .. } => Some(Action::Load(Cell::Hazard(cursor))),
        }
    }

    /// The participant after a scan: the retired nodes that a slot named stay
    /// retired, in their order; the others join the spare nodes, in their order.
    pub open spec fn reclaimed(self) -> ParticipantView {
        ParticipantView {
            retired: self.retired.filter(named_in(self.seen)),
            spare: self.spare + self.retired.filter(absent_from(self.seen)),
            seen: Seq::empty(),
            ..self
        }
    }

    /// The participant after the reply to a load.
    pub open spec fn on_word(self, word: u64) -> ParticipantView {
        match self.phase {
            Phase::ClaimLoad { value } => if word < self.nodes {
                self.at(Phase::ClaimCas { value, fresh: word })
            } else {
                self.at(Phase::Done(Outcome::Exhausted))
            },
            Phase::PushRead { node, value } => if is_link(word, self.nodes) {
                self.at(Phase::Link { node, head: word, value })
            } else {
                self.at(Phase::Done(Outcome::Corrupt))
            },
            Phase::PopRead => if word == NIL {
                self.at(Phase::Done(Outcome::Empty))
            } else if word < self.nodes {
                self.at(Phase::Announce { node: word })
            } else {
                self.at(Phase::Done(Outcome::Corrupt))
            },
            Phase::Validate { node } => if word == node {
                self.at(Phase::Follow { node })
            } else {
                self.at(Phase::Withdraw)
            },
            Phase::Follow { node } => if is_link(word, self.nodes) {
                self.at(Phase::PopCas { node, next: word })
            } else {
                self.at(Phase::Done(Outcome::Corrupt))
            },
            Phase::Extract { node } => self.at(Phase::Clear { node, value: word }),
            Phase::Scan { value, cursor } => {
                let found = ParticipantView { seen: self.seen.push(word), ..self };
                if cursor + 1 < self.peers {
                    found.at(Phase::Scan { value, cursor: (cursor + 1) as u64 })
                } else {
                    found.reclaimed().at(Phase::Done(Outcome::Popped(value)))
                }
            },
            _ => self.at(Phase::Done(Outcome::Corrupt)),
        }
    }

    /// The participant after the reply to a store.
    pub open spec fn on_stored(self) -> ParticipantView {
        match self.phase {
            Phase::Fill { node, value } => self.at(Phase::PushRead { node, value }),
            Phase::Link { node, head, value } => self.at(Phase::PushCas { node, head, value }),
            Phase::Announce { node } => self.at(Phase::Validate { node }),
            Phase::Withdraw => self.at(Phase::PopRead),
            Phase::Clear { node, value } => ParticipantView {
                phase: Phase::Scan { value, cursor: 0 },
                retired: self.retired.push(node),
                seen: Seq::empty(),
                ..self
            },
            _ => self.at(Phase::Done(Outcome::Corrupt)),
        }
    }

    /// The participant after the reply to a compare-and-swap.
    pub open spec fn on_swapped(self, won: bool) -> ParticipantView {
        match self.phase {
            Phase::ClaimCas { value, fresh } => if won {
                self.at(Phase::Fill { node: fresh, value })
            } else {
                self.at(Phase::ClaimLoad { value })
            },
            Phase::PushCas { node, value, .. } => if won {
                self.at(Phase::Done(Outcome::Pushed))
            } else {
                self.at(Phase::PushRead { node, value })
            },
            Phase::PopCas { node, .. } => if won {
                self.at(Phase::Extract { node })
            } else {
                self.at(Phase::Withdraw)
            },
            _ => self.at(Phase::Done(Outcome::Corrupt)),
        }
    }

    /// The participant after a reply. Idle or done, it waits for none and stays
    /// as it is.
    pub open spec fn advance(self, reply: Reply) -> ParticipantView {
        if !self.phase.active() {
            self
        } else {
            match reply {
                Reply::Word(word) => self.on_word(word),
                Reply::Stored => self.on_stored(),
                Reply::Swapped(won) => self.on_swapped(won),
            }
        }
    }

    /// The participant at the start of a push: with a spare node, it takes the
    /// one released last; without, it goes to claim an unused one.
    pub open spec fn begin_push(self, value: u64) -> ParticipantView {
        if self.spare.len() > 0 {
            ParticipantView {
                phase: Phase::Fill { node: self.spare.last(), value },
                spare: self.spare.drop_last(),
                ..self
            }
        } else {
            self.at(Phase::ClaimLoad { value })
        }
    }

    /// The participant at the start of a pop.
    pub open spec fn begin_pop(self) -> ParticipantView {
        self.at(Phase::PopRead)
    }
}

/// A participant of the stack.
pub struct Participant {
    slot: u64,
    nodes: u64,
    peers: u64,
    phase: Phase,
    retired: Vec<u64>,
    spare: Vec<u64>,
    seen: Vec<u64>,
}

impl View for Participant {
    type V = ParticipantView;

    closed spec fn view(&self) -> ParticipantView {
        ParticipantView {
            slot: self.slot,
            nodes: self.nodes,
            peers: self.peers,
            phase: self.phase,
            retired: self.retired@,
            spare: self.spare@,
            seen: self.seen@,
        }
    }
}

impl Participant {
    /// The participant of hazard slot `slot`, for a store of `nodes` nodes and
    /// `peers` slots; none when there is no such slot.
    pub fn new(slot: u64, nodes: u64, peers: u64) -> (p: Option<Participant>)
        ensures
            p is Some <==> slot < peers,
            p matches Some(q) ==> q@ == ParticipantView::start(slot, nodes, peers) && q@.wf(),
    {
        if slot < peers {
            Some(
                Participant {
                    slot,
                    nodes,
                    peers,
                    phase: Phase::Idle,
                    retired: Vec::new(),
                    spare: Vec::new(),
                    seen: Vec::new(),
                },
            )
        } else {
            None
        }
    }

    /// The hazard slot of the participant.
    pub fn slot(&self) -> (slot: u64)
        ensures
            slot == self@.slot,
    {
        self.slot
    }

    /// The number of nodes of the store that the participant was made for.
    pub fn nodes(&self) -> (nodes: u64)
        ensures
            nodes == self@.nodes,
    {
        self.nodes
    }

    /// The number of hazard slots of the store that the participant was made
    /// for.
    pub fn peers(&self) -> (peers: u64)
        ensures
            peers == self@.peers,
    {
        self.peers
    }

    /// Tells the participant that its store was enlarged to `nodes` nodes.
    pub(crate) fn enlarge(&mut self, nodes: u64)
        requires
            old(self)@.wf(),
        ensures
            final(self)@ == old(self)@.enlarged(nodes),
            final(self)@.wf(),
    {
        if nodes > self.nodes {
            self.nodes = nodes;
        }
    }

    /// Where the participant stands.
    pub fn phase(&self) -> (phase: Phase)
        ensures
            phase == self@.phase,
    {
        self.phase
    }

    /// The number of nodes that the participant has unlinked and not released.
    pub fn retired_len(&self) -> (n: usize)
        ensures
            n == self@.retired.len(),
    {
        self.retired.len()
    }

    /// The number of released nodes that the participant may link again.
    pub fn spare_len(&self) -> (n: usize)
        ensures
            n == self@.spare.len(),
    {
        self.spare.len()
    }

    /// The action that the participant waits on; none when it is idle or done.
    pub fn action(&self) -> (a: Option<Action>)
        requires
            self@.wf(),
        ensures
            a == self@.action(),
    {
        match self.phase {
            Phase::Idle => None,
            Phase::Done(_) => None,
            Phase::ClaimLoad { .. } => Some(Action::Load(Cell::Fresh)),
            Phase::ClaimCas { fresh, .. } => Some(Action::Cas(Cell::Fresh, fresh, fresh + 1)),
            Phase::Fill { node, value } => Some(Action::Store(Cell::Value(node), value)),
            Phase::PushRead { .. } => Some(Action::Load(Cell::Head)),
            Phase::Link { node, head, .. } => Some(Action::Store(Cell::Next(node), head)),
            Phase::PushCas { node, head, .. } => Some(Action::Cas(Cell::Head, head, node)),
            Phase::PopRead => Some(Action::Load(Cell::Head)),
            Phase::Announce { node } => Some(Action::Store(Cell::Hazard(self.slot), node)),
            Phase::Validate { .. } => Some(Action::Load(Cell::Head)),
            Phase::Withdraw => Some(Action::Store(Cell::Hazard(self.slot), NIL)),
            Phase::Follow { node } => Some(Action::Load(Cell::Next(node))),
            Phase::PopCas { node, next } => Some(Action::Cas(Cell::Head, node, next)),
            Phase::Extract { node } => Some(Action::Load(Cell::Value(node))),
            Phase::Clear { .. } => Some(Action::Store(Cell::Hazard(self.slot), NIL)),
            Phase::Scan { cursor, .. } => Some(Action::Load(Cell::Hazard(cursor))),
        }
    }

    /// Takes the reply to the action that the participant waited on.
    pub fn advance(&mut self, reply: Reply)
        requires
            old(self)@.wf(),
        ensures
            final(self)@ == old(self)@.advance(reply),
            final(self)@.wf(),
    {
        let corrupt = Phase::Done(Outcome::Corrupt);
        match self.phase {
            Phase::Idle => {},
            Phase::Done(_) => {},
            Phase::ClaimLoad { value } => {
                self.phase = match reply {
                    Reply::Word(word) => if word < self.nodes {
                        Phase::ClaimCas { value, fresh: word }
                    } else {
                        Phase::Done(Outcome::Exhausted)
                    },
                    _ => corrupt,
                };
            },
            Phase::ClaimCas { value, fresh } => {
                self.phase = match reply {
                    Reply::Swapped(won) => if won {
                        Phase::Fill { node: fresh, value }
                    } else {
                        Phase::ClaimLoad { value }
                    },
                    _ => corrupt,
                };
            },
            Phase::Fill { node, value } => {
                self.phase = match reply {
                    Reply::Stored => Phase::PushRead { node, value },
                    _ => corrupt,
                };
            },
            Phase::PushRead { node, value } => {
                self.phase = match reply {
                    Reply::Word(word) => if word == NIL || word < self.nodes {
                        Phase::Link { node, head: word, value }
                    } else {
                        corrupt
                    },
                    _ => corrupt,
                };
            },
            Phase::Link { node, head, value } => {
                self.phase = match reply {
                    Reply::Stored => Phase::PushCas { node, head, value },
                    _ => corrupt,
                };
            },
            Phase::PushCas { node, value, .. } => {
                self.phase = match reply {
                    Reply::Swapped(won) => if won {
                        Phase::Done(Outcome::Pushed)
                    } else {
                        Phase::PushRead { node, value }
                    },
                    _ => corrupt,
                };
            },
            Phase::PopRead => {
                self.phase = match reply {
                    Reply::Word(word) => if word == NIL {
                        Phase::Done(Outcome::Empty)
                    } else if word < self.nodes {
                        Phase::Announce { node: word }
                    } else {
                        corrupt
                    },
                    _ => corrupt,
                };
            },
            Phase::Announce { node } => {
                self.phase = match reply {
                    Reply::Stored => Phase::Validate { node },
                    _ => corrupt,
                };
            },
            Phase::Validate { node } => {
                self.phase = match reply {
                    Reply::Word(word) => if word == node {
                        Phase::Follow { node }
                    } else {
                        Phase::Withdraw
                    },
                    _ => corrupt,
                };
            },
            Phase::Withdraw => {
                self.phase = match reply {
                    Reply::Stored => Phase::PopRead,
                    _ => corrupt,
                };
            },
            Phase::Follow { node } => {
                self.phase = match reply {
                    Reply::Word(word) => if word == NIL || word < self.nodes {
                        Phase::PopCas { node, next: word }
                    } else {
                        corrupt
                    },
                    _ => corrupt,
                };
            },
            Phase::PopCas { node, .. } => {
                self.phase = match reply {
                    Reply::Swapped(won) => if won {
                        Phase::Extract { node }
                    } else {
                        Phase::Withdraw
                    },
                    _ => corrupt,
                };
            },
            Phase::Extract { node } => {
                self.phase = match reply {
                    Reply::Word(word) => Phase::Clear { node, value: word },
                    _ => corrupt,
                };
            },
            Phase::Clear { node, value } => {
                match reply {
                    Reply::Stored => {
                        self.retired.push(node);
                        self.seen.clear();
                        self.phase = Phase::Scan { value, cursor: 0 };
                    },
                    _ => {
                        self.phase = corrupt;
                    },
                }
            },
            Phase::Scan { value, cursor } => {
                match reply {
                    Reply::Word(word) => {
                        self.seen.push(word);
                        if cursor + 1 < self.peers {
                            self.phase = Phase::Scan { value, cursor: cursor + 1 };
                        } else {
                            proof {
                                lemma_filter_keeps(self@.retired, named_in(self@.seen));
                                lemma_filter_keeps(self@.retired, absent_from(self@.seen));
                            }
                            let ghost before = self@;
                            let kept = release(&self.retired, &self.seen, &mut self.spare);
                            self.retired = kept;
                            self.seen.clear();
                            self.phase = Phase::Done(Outcome::Popped(value));
                            proof {
                                let freed = before.retired.filter(absent_from(before.seen));
                                assert forall|i: int| 0 <= i < self@.retired.len() implies (
                                #[trigger] self@.retired[i]) < self@.nodes by {
                                    assert(self@.retired.contains(self@.retired[i]));
                                    assert(before.retired.contains(self@.retired[i]));
                                }
                                assert forall|i: int| 0 <= i < self@.spare.len() implies (
                                #[trigger] self@.spare[i]) < self@.nodes by {
                                    if i >= before.spare.len() {
                                        assert(freed.contains(freed[i - before.spare.len()]));
                                        assert(before.retired.contains(self@.spare[i]));
                                    }
                                }
                            }
                        }
                    },
                    _ => {
                        self.phase = corrupt;
                    },
                }
            },
        }
    }

    /// Starts a push of `value`. Says whether it did: it does not in the middle
    /// of an operation.
    pub fn begin_push(&mut self, value: u64) -> (started: bool)
        requires
            old(self)@.wf(),
        ensures
            started <==> !old(self)@.phase.active(),
            final(self)@ == (if started {
                old(self)@.begin_push(value)
            } else {
                old(self)@
            }),
            final(self)@.wf(),
    {
        if self.phase.is_active() {
            return false;
        }
        match self.spare.pop() {
            Some(node) => {
                assert(old(self)@.spare[old(self)@.spare.len() - 1] < self.nodes);
                self.phase = Phase::Fill { node, value };
            },
            None => {
                self.phase = Phase::ClaimLoad { value };
            },
        }
        true
    }

    /// Starts a pop. Says whether it did: it does not in the middle of an
    /// operation.
    pub fn begin_pop(&mut self) -> (started: bool)
        requires
            old(self)@.wf(),
        ensures
            started <==> !old(self)@.phase.active(),
            final(self)@ == (if started {
                old(self)@.begin_pop()
            } else {
                old(self)@
            }),
            final(self)@.wf(),
    {
        if self.phase.is_active() {
            return false;
        }
        self.phase = Phase::PopRead;
        true
    }

    /// How the operation ended, if it has; the participant is idle afterwards.
    pub fn finish(&mut self) -> (o: Option<Outcome>)
        requires
            old(self)@.wf(),
        ensures
            o == (match old(self)@.phase {
                Phase::Done(outcome) => Some(outcome),
                _ => None,
            }),
            final(self)@ == (if o is Some {
                old(self)@.at(Phase::Idle)
            } else {
                old(self)@
            }),
            final(self)@.wf(),
    {
        match self.phase {
            Phase::Done(outcome) => {
                self.phase = Phase::Idle;
                Some(outcome)
            },
            _ => None,
        }
    }
}

} // verus!
