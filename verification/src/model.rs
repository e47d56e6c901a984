//! The stack as a transition system: the cells, the participants, and beside
//! them what no cell records: which nodes are linked and in what order, who
//! holds each node, and which operations have taken effect.

use vstd::prelude::*;
use crate::cell::NIL;
use crate::memory::MemoryView;
use crate::participant::ParticipantView;
use crate::participant::Phase;

verus! {

/// Who holds a node.
pub enum Status {
    /// Nobody: the node was never handed out.
    Unused,
    /// A participant that is preparing to link it.
    Owned(int),
    /// The stack: the node is reachable from the head.
    Linked,
    /// The participant that unlinked it and has not yet retired it.
    Unlinked(int),
    /// The participant that retired it: unlinked, not yet released.
    Retired(int),
    /// The participant that released it and may link it again.
    Released(int),
}

/// What an operation does to the stack at the moment it takes effect.
#[derive(Clone, Copy, PartialEq, Eq, Debug, Structural)]
pub enum Op {
    /// A payload goes on top.
    Push(u64),
    /// The top payload comes off.
    Pop(u64),
    /// A pop finds no payload.
    PopEmpty,
}

/// An operation taking effect: whose it is, and what it does.
#[derive(Clone, Copy, PartialEq, Eq, Debug, Structural)]
pub struct Event {
    pub who: u64,
    pub op: Op,
}

/// The state of the whole system.
pub struct Model {
    /// The shared cells.
    pub memory: MemoryView,
    /// The participants, each at the index of its hazard slot.
    pub participants: Seq<ParticipantView>,
    /// The linked nodes, bottom first.
    pub order: Seq<u64>,
    /// Who holds each node.
    pub status: Seq<Status>,
    /// The operations that have taken effect, in the order in which they did.
    pub history: Seq<Event>,
    /// For each participant, the length of the history when it last read the
    /// head.
    pub stamps: Seq<nat>,
}

/// The payload on top of a stack, if there is one: what a pop hands back.
pub open spec fn top(content: Seq<u64>) -> Option<u64> {
    if content.len() > 0 {
        Some(content.last())
    } else {
        None
    }
}

/// A stack without the payload on top: what a pop leaves. An empty stack stays
/// empty.
pub open spec fn rest(content: Seq<u64>) -> Seq<u64> {
    if content.len() > 0 {
        content.drop_last()
    } else {
        content
    }
}

/// The effect of a pop on a stack.
pub open spec fn pop_of(content: Seq<u64>) -> Op {
    if content.len() > 0 {
        Op::Pop(content.last())
    } else {
        Op::PopEmpty
    }
}

/// A stack after an operation took effect on it; none when the operation
/// cannot take effect on this stack.
pub open spec fn apply(content: Seq<u64>, op: Op) -> Option<Seq<u64>> {
    match op {
        Op::Push(v) => Some(content.push(v)),
        Op::Pop(v) => if content.len() > 0 && content.last() == v {
            Some(content.drop_last())
        } else {
            None
        },
        Op::PopEmpty => if content.len() == 0 {
            Some(content)
        } else {
            None
        },
    }
}

/// The stack that a history leaves when its operations take effect one after
/// the other on an empty stack; none when one of them cannot.
pub open spec fn replay(history: Seq<Event>) -> Option<Seq<u64>>
    decreases history.len(),
{
    if history.len() == 0 {
        Some(Seq::empty())
    } else {
        match replay(history.drop_last()) {
            Some(content) => apply(content, history.last().op),
            None => None,
        }
    }
}

/// The latest effect of `who` in a history.
pub open spec fn last_by(history: Seq<Event>, who: int) -> Option<Op>
    decreases history.len(),
{
    if history.len() == 0 {
        None
    } else if history.last().who == who {
        Some(history.last().op)
    } else {
        last_by(history.drop_last(), who)
    }
}

impl Model {
    /// The number of nodes in the store.
    pub open spec fn nodes(self) -> nat {
        self.memory.nodes()
    }

    /// The number of participants.
    pub open spec fn peers(self) -> nat {
        self.participants.len()
    }

    /// Who holds a node.
    pub open spec fn holder(self, node: u64) -> Status {
        self.status[node as int]
    }

    /// The payloads on the stack, bottom first.
    pub open spec fn content(self) -> Seq<u64> {
        Seq::new(self.order.len(), |i: int| self.memory.value[self.order[i] as int])
    }

    /// A system in which nothing has happened yet.
    pub open spec fn start(nodes: nat, peers: nat) -> Model {
        Model {
            memory: MemoryView::fresh_store(nodes, peers),
            participants: Seq::new(
                peers,
                |t: int| ParticipantView::start(t as u64, nodes as u64, peers as u64),
            ),
            order: Seq::empty(),
            status: Seq::new(nodes, |n: int| Status::Unused),
            history: Seq::empty(),
            stamps: Seq::new(peers, |t: int| 0nat),
        }
    }

    /// The effect, if any, that the next step of participant `t` has on the
    /// stack.
    pub open spec fn effect(self, t: int) -> Option<Op> {
        match self.participants[t].phase {
            Phase::PushCas { head, value, .. } => if self.memory.head == head {
                Some(Op::Push(value))
            } else {
                None
            },
            Phase::PopCas { node, .. } => if self.memory.head == node {
                Some(Op::Pop(self.memory.value[node as int]))
            } else {
                None
            },
            Phase::PopRead => if self.memory.head == NIL {
                Some(Op::PopEmpty)
            } else {
                None
            },
            _ => None,
        }
    }

    /// The payloads on the stack after the next step of participant `t`, as
    /// its effect says: the content as it is where the step has no effect, and
    /// none where the effect cannot take place on the content.
    pub open spec fn settled(self, t: int) -> Option<Seq<u64>> {
        match self.effect(t) {
            Some(op) => apply(self.content(), op),
            None => Some(self.content()),
        }
    }

    /// The linked nodes after the next step of participant `t`.
    pub open spec fn order_after(self, t: int) -> Seq<u64> {
        match self.participants[t].phase {
            Phase::PushCas { node, head, .. } => if self.memory.head == head {
                self.order.push(node)
            } else {
                self.order
            },
            Phase::PopCas { node, .. } => if self.memory.head == node {
                self.order.drop_last()
            } else {
                self.order
            },
            _ => self.order,
        }
    }

    /// The holders after a scan of participant `t` that found `seen`: what it
    /// had retired and no slot named is released.
    pub open spec fn released(self, t: int, seen: Seq<u64>) -> Seq<Status> {
        Seq::new(
            self.status.len(),
            |n: int|
                if self.status[n] == Status::Retired(t) && !seen.contains(n as u64) {
                    Status::Released(t)
                } else {
                    self.status[n]
                },
        )
    }

    /// The holders after the next step of participant `t`.
    pub open spec fn status_after(self, t: int) -> Seq<Status> {
        let p = self.participants[t];
        match p.phase {
            Phase::ClaimCas { fresh, .. } => if self.memory.fresh == fresh {
                self.status.update(fresh as int, Status::Owned(t))
            } else {
                self.status
            },
            Phase::PushCas { node, head, .. } => if self.memory.head == head {
                self.status.update(node as int, Status::Linked)
            } else {
                self.status
            },
            Phase::PopCas { node, .. } => if self.memory.head == node {
                self.status.update(node as int, Status::Unlinked(t))
            } else {
                self.status
            },
            Phase::Clear { node, .. } => self.status.update(node as int, Status::Retired(t)),
            Phase::Scan { cursor, .. } => if cursor + 1 < p.peers {
                self.status
            } else {
                self.released(t, p.seen.push(self.memory.hazard[cursor as int]))
            },
            _ => self.status,
        }
    }

    /// The next step of participant `t` taking effect, if it does.
    pub open spec fn event(self, t: int) -> Option<Event> {
        if 0 <= t < self.participants.len() {
            match self.effect(t) {
                Some(op) => Some(Event { who: t as u64, op }),
                None => None,
            }
        } else {
            None
        }
    }

    /// The history after the next step of participant `t`.
    pub open spec fn history_after(self, t: int) -> Seq<Event> {
        match self.effect(t) {
            Some(op) => self.history.push(Event { who: t as u64, op }),
            None => self.history,
        }
    }

    /// The stamps after the next step of participant `t`.
    pub open spec fn stamps_after(self, t: int) -> Seq<nat> {
        match self.participants[t].phase {
            Phase::PushRead { .. } => self.stamps.update(t, self.history.len()),
            Phase::PopRead => self.stamps.update(t, self.history.len()),
            Phase::Validate { .. } => self.stamps.update(t, self.history.len()),
            _ => self.stamps,
        }
    }

    /// The system after participant `t` has performed the action it waited on
    /// and taken the reply. Where there is no such participant, or it waits on
    /// nothing, the system stays as it is.
    pub open spec fn step(self, t: int) -> Model {
        if 0 <= t < self.participants.len() {
            let p = self.participants[t];
            match p.action() {
                None => self,
                Some(a) => Model {
                    memory: self.memory.after(a),
                    participants: self.participants.update(t, p.advance(self.memory.reply(a))),
                    order: self.order_after(t),
                    status: self.status_after(t),
                    history: self.history_after(t),
                    stamps: self.stamps_after(t),
                },
            }
        } else {
            self
        }
    }

    /// The system after the store was enlarged to `nodes` nodes: the new nodes
    /// are unused, every participant knows the new size, and nothing else has
    /// changed. A store that has as many nodes already stays as it is.
    pub open spec fn enlarged(self, nodes: nat) -> Model {
        if nodes <= self.nodes() {
            self
        } else {
            Model {
                memory: self.memory.enlarged(nodes),
                participants: Seq::new(
                    self.participants.len(),
                    |t: int| self.participants[t].enlarged(nodes as u64),
                ),
                status: self.status + Seq::new(
                    (nodes - self.nodes()) as nat,
                    |n: int| Status::Unused,
                ),
                ..self
            }
        }
    }

    /// The system after participant `t` has started a push of `value`.
    pub open spec fn begin_push(self, t: int, value: u64) -> Model {
        let p = self.participants[t];
        Model {
            participants: self.participants.update(t, p.begin_push(value)),
            status: if p.spare.len() > 0 {
                self.status.update(p.spare.last() as int, Status::Owned(t))
            } else {
                self.status
            },
            ..self
        }
    }

    /// The system after participant `t` has started a pop.
    pub open spec fn begin_pop(self, t: int) -> Model {
        Model {
            participants: self.participants.update(t, self.participants[t].begin_pop()),
            ..self
        }
    }

    /// The system after participant `t` has handed over how its operation ended.
    pub open spec fn finish(self, t: int) -> Model {
        Model {
            participants: self.participants.update(t, self.participants[t].at(Phase::Idle)),
            ..self
        }
    }
}

} // verus!
