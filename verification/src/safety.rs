//! What holds of the system in every state that it can reach, and the proof
//! that every transition keeps it.

use vstd::prelude::*;
use crate::cell::is_link;
use crate::cell::NIL;
use crate::model::apply;
use crate::model::last_by;
use crate::model::replay;
use crate::model::Event;
use crate::model::Model;
use crate::model::Op;
use crate::model::Status;
use crate::participant::Outcome;
use crate::participant::Phase;
use crate::reclaim::absent_from;
use crate::reclaim::lemma_filter_keeps;
use crate::reclaim::lemma_filter_split;
use crate::reclaim::lemma_no_longer;
use crate::reclaim::lemma_push_contains;
use crate::reclaim::named_in;

verus! {

impl Model {
    /// Participant `t` sits at its own hazard slot and knows the store's size.
    pub open spec fn seated(self, t: int) -> bool {
        let p = self.participants[t];
        &&& p.wf()
        &&& p.slot == t
        &&& p.nodes == self.memory.nodes()
        &&& p.peers == self.participants.len()
        &&& self.stamps[t] <= self.history.len()
    }

    /// The parts of the system agree in size, and every link is a link.
    pub open spec fn shape(self) -> bool {
        &&& self.memory.wf()
        &&& self.memory.nodes() <= NIL
        &&& self.memory.fresh <= self.memory.nodes()
        &&& self.memory.slots() == self.participants.len()
        &&& self.status.len() == self.memory.nodes()
        &&& self.stamps.len() == self.participants.len()
        &&& forall|n: int|
            0 <= n < self.memory.next.len() ==> is_link(
                #[trigger] self.memory.next[n],
                self.memory.nodes() as u64,
            )
        &&& forall|t: int| 0 <= t < self.participants.len() ==> #[trigger] self.seated(t)
    }

    /// The node at place `i` of the order is held by the stack and points at
    /// the node below it.
    pub open spec fn linked_at(self, i: int) -> bool {
        let n = self.order[i];
        &&& n < self.memory.nodes()
        &&& self.status[n as int] == Status::Linked
        &&& self.memory.next[n as int] == (if i == 0 {
            NIL
        } else {
            self.order[i - 1]
        })
    }

    /// Following the links from the head passes through the linked nodes, top
    /// to bottom, each once, and ends at `NIL`.
    pub open spec fn chain(self) -> bool {
        &&& self.memory.head == (if self.order.len() == 0 {
            NIL
        } else {
            self.order.last()
        })
        &&& forall|i: int| 0 <= i < self.order.len() ==> #[trigger] self.linked_at(i)
        &&& self.order.no_duplicates()
    }

    /// The nodes that were never handed out are those from `fresh` on.
    pub open spec fn untouched(self) -> bool {
        forall|n: int|
            0 <= n < self.status.len() ==> ((#[trigger] self.status[n]) is Unused
                <==> self.memory.fresh <= n)
    }

    /// Participant `t` holds each node in its lists, and holds it once; and it
    /// has retired no more nodes than there are hazard slots, but for the one
    /// that it adds before a scan.
    pub open spec fn holdings(self, t: int) -> bool {
        let p = self.participants[t];
        &&& forall|i: int|
            0 <= i < p.spare.len() ==> self.status[(#[trigger] p.spare[i]) as int]
                == Status::Released(t)
        &&& p.spare.no_duplicates()
        &&& forall|i: int|
            0 <= i < p.retired.len() ==> self.status[(#[trigger] p.retired[i]) as int]
                == Status::Retired(t)
        &&& p.retired.no_duplicates()
        &&& p.retired.len() <= self.participants.len() + (if p.phase is Scan {
            1int
        } else {
            0int
        })
    }

    /// A scan of participant `u` has not passed the hazard slot of `t`, or has
    /// found `node` named.
    pub open spec fn watched(self, u: int, t: int, node: u64) -> bool {
        let q = self.participants[u];
        q.phase matches Phase::Scan { cursor, .. } ==> cursor <= t || q.seen.contains(node)
    }

    /// The hazard slot of `t` names `node`, and `node` has not been released
    /// since `t` saw it on top: it is linked, or unlinked and not yet released,
    /// and no scan will release it.
    pub open spec fn guarded(self, t: int, node: u64) -> bool {
        &&& self.memory.hazard[t] == node
        &&& match self.status[node as int] {
            Status::Linked => true,
            Status::Unlinked(_) => true,
            Status::Retired(u) => 0 <= u < self.participants.len() && self.watched(u, t, node),
            _ => false,
        }
    }

    /// If nothing has taken effect since `t` read the head, the head is still
    /// what `t` read.
    pub open spec fn current(self, t: int, head: u64) -> bool {
        self.stamps[t] == self.history.len() ==> self.memory.head == head
    }

    /// What the phase of participant `t` rests on.
    pub open spec fn grounded(self, t: int) -> bool {
        let mine = last_by(self.history, t);
        match self.participants[t].phase {
            Phase::Fill { node, .. } => self.status[node as int] == Status::Owned(t),
            Phase::PushRead { node, value } => {
                &&& self.status[node as int] == Status::Owned(t)
                &&& self.memory.value[node as int] == value
            },
            Phase::Link { node, head, value } => {
                &&& self.status[node as int] == Status::Owned(t)
                &&& self.memory.value[node as int] == value
                &&& self.current(t, head)
            },
            Phase::PushCas { node, head, value } => {
                &&& self.status[node as int] == Status::Owned(t)
                &&& self.memory.value[node as int] == value
                &&& self.memory.next[node as int] == head
                &&& self.current(t, head)
            },
            Phase::Announce { node } => self.current(t, node),
            Phase::Validate { node } => self.memory.hazard[t] == node && self.current(t, node),
            Phase::Follow { node } => self.guarded(t, node) && self.current(t, node),
            Phase::PopCas { node, next } => {
                &&& self.guarded(t, node)
                &&& self.memory.next[node as int] == next
                &&& self.current(t, node)
            },
            Phase::Extract { node } => {
                &&& self.status[node as int] == Status::Unlinked(t)
                &&& mine == Some(Op::Pop(self.memory.value[node as int]))
            },
            Phase::Clear { node, value } => {
                &&& self.status[node as int] == Status::Unlinked(t)
                &&& mine == Some(Op::Pop(value))
            },
            Phase::Scan { value, .. } => mine == Some(Op::Pop(value)),
            Phase::Done(Outcome::Popped(value)) => mine == Some(Op::Pop(value)),
            Phase::Done(Outcome::Empty) => mine == Some(Op::PopEmpty),
            Phase::Done(Outcome::Pushed) => mine matches Some(Op::Push(_)),
            Phase::Done(Outcome::Corrupt) => false,
            _ => true,
        }
    }

    /// The number of nodes that participant `t` holds: those to spare, those
    /// retired, and the one that its operation has in hand.
    pub open spec fn held(self, t: int) -> nat {
        let p = self.participants[t];
        p.spare.len() + p.retired.len() + in_hand(p.phase)
    }

    /// The number of nodes that the first `n` participants hold.
    pub open spec fn held_below(self, n: nat) -> nat
        decreases n,
    {
        if n == 0 {
            0
        } else {
            self.held_below((n - 1) as nat) + self.held(n - 1)
        }
    }

    /// Every node that was handed out is linked or held by a participant: none
    /// has leaked.
    pub open spec fn accounted(self) -> bool {
        self.memory.fresh == self.order.len() + self.held_below(self.participants.len())
    }

    /// The history is one that a stack can go through, and it leaves the
    /// payloads that are linked now.
    pub open spec fn legal(self) -> bool {
        replay(self.history) == Some(self.content())
    }

    /// The invariant of the system.
    pub open spec fn inv(self) -> bool {
        &&& self.shape()
        &&& self.chain()
        &&& self.untouched()
        &&& forall|t: int| 0 <= t < self.participants.len() ==> #[trigger] self.holdings(t)
        &&& forall|t: int| 0 <= t < self.participants.len() ==> #[trigger] self.grounded(t)
        &&& self.legal()
        &&& self.accounted()
    }
}

/// The number of nodes that an operation in this phase has in hand: the node
/// that a push prepares, or the node that a pop has unlinked and not retired.
pub open spec fn in_hand(phase: Phase) -> nat {
    match phase {
        Phase::Fill { .. } => 1,
        Phase::PushRead { .. } => 1,
        Phase::Link { .. } => 1,
        Phase::PushCas { .. } => 1,
        Phase::Extract { .. } => 1,
        Phase::Clear { .. } => 1,
        _ => 0,
    }
}

/// Where two systems differ in one participant only, the nodes held differ by
/// what that participant holds.
pub proof fn lemma_held_shift(m: Model, m2: Model, t: int, n: nat)
    requires
        0 <= t < m.participants.len(),
        n <= m.participants.len(),
        m2.participants.len() == m.participants.len(),
        forall|u: int|
            0 <= u < m.participants.len() && u != t ==> #[trigger] m2.participants[u]
                == m.participants[u],
    ensures
        t < n ==> m2.held_below(n) + m.held(t) == m.held_below(n) + m2.held(t),
        t >= n ==> m2.held_below(n) == m.held_below(n),
    decreases n,
{
    if n > 0 {
        lemma_held_shift(m, m2, t, (n - 1) as nat);
        if n - 1 != t {
            assert(m2.participants[n - 1] == m.participants[n - 1]);
        }
    }
}

/// The latest effect of `who` after one more event.
pub proof fn lemma_last_by_push(history: Seq<Event>, e: Event, who: int)
    ensures
        last_by(history.push(e), who) == (if e.who == who {
            Some(e.op)
        } else {
            last_by(history, who)
        }),
{
    assert(history.push(e).drop_last() =~= history);
}

/// The stack that a history leaves after one more event.
pub proof fn lemma_replay_push(history: Seq<Event>, e: Event)
    ensures
        replay(history.push(e)) == (match replay(history) {
            Some(content) => apply(content, e.op),
            None => None,
        }),
{
    assert(history.push(e).drop_last() =~= history);
}

/// A new system satisfies the invariant.
pub proof fn lemma_start_inv(nodes: nat, peers: nat)
    requires
        nodes <= NIL,
        peers <= NIL,
    ensures
        Model::start(nodes, peers).inv(),
        Model::start(nodes, peers).content() == Seq::<u64>::empty(),
{
    let m = Model::start(nodes, peers);
    assert forall|t: int| 0 <= t < m.participants.len() implies #[trigger] m.seated(t) by {}
    assert forall|t: int| 0 <= t < m.participants.len() implies #[trigger] m.holdings(t) by {}
    assert forall|t: int| 0 <= t < m.participants.len() implies #[trigger] m.grounded(t) by {}
    assert(m.content() =~= Seq::<u64>::empty());
    lemma_holds_nothing(m, peers);
}

/// Where the first `n` participants hold nothing each, they hold nothing
/// together.
pub proof fn lemma_holds_nothing(m: Model, n: nat)
    requires
        n <= m.participants.len(),
        forall|t: int| 0 <= t < n ==> #[trigger] m.held(t) == 0,
    ensures
        m.held_below(n) == 0,
    decreases n,
{
    if n > 0 {
        lemma_holds_nothing(m, (n - 1) as nat);
        assert(m.held(n - 1) == 0);
    }
}

/// One change of the system: a step of a participant, the start of an
/// operation, the handing over of its end, or the enlarging of the store.
pub enum Change {
    /// The participant performs the action it waits on.
    Step(int),
    /// The participant starts a push of the payload.
    BeginPush(int, u64),
    /// The participant starts a pop.
    BeginPop(int),
    /// The participant hands over how its operation ended.
    Finish(int),
    /// The store is enlarged to so many nodes.
    Enlarge(nat),
}

impl Change {
    /// The participant that the change is about; none where it is about the
    /// store.
    pub open spec fn who(self) -> Option<int> {
        match self {
            Change::Step(t) => Some(t),
            Change::BeginPush(t, _) => Some(t),
            Change::BeginPop(t) => Some(t),
            Change::Finish(t) => Some(t),
            Change::Enlarge(_) => None,
        }
    }
}

impl Model {
    /// Whether the change can take place: there is such a participant, it is
    /// in the middle of an operation for a step, free for a start, done for a
    /// handing over; and the store is enlarged to more nodes than it has, and
    /// no more than a word can name.
    pub open spec fn allows(self, c: Change) -> bool {
        match c {
            Change::Step(t) => 0 <= t < self.participants.len()
                && self.participants[t].phase.active(),
            Change::BeginPush(t, _) => 0 <= t < self.participants.len()
                && !self.participants[t].phase.active(),
            Change::BeginPop(t) => 0 <= t < self.participants.len()
                && !self.participants[t].phase.active(),
            Change::Finish(t) => 0 <= t < self.participants.len()
                && self.participants[t].phase is Done,
            Change::Enlarge(nodes) => self.nodes() < nodes <= NIL,
        }
    }

    /// The system after a change.
    pub open spec fn after(self, c: Change) -> Model {
        match c {
            Change::Step(t) => self.step(t),
            Change::BeginPush(t, value) => self.begin_push(t, value),
            Change::BeginPop(t) => self.begin_pop(t),
            Change::Finish(t) => self.finish(t),
            Change::Enlarge(nodes) => self.enlarged(nodes),
        }
    }

    /// The payloads on the stack after a change: what the effect of a step
    /// says, and the content as it is for every other change.
    pub open spec fn content_after(self, c: Change) -> Option<Seq<u64>> {
        match c {
            Change::Step(t) => self.settled(t),
            _ => Some(self.content()),
        }
    }
}

/// Where every participant holds as many nodes in one system as in another,
/// the participants hold as many together.
pub proof fn lemma_held_same(m: Model, m2: Model, n: nat)
    requires
        n <= m.participants.len(),
        forall|t: int| 0 <= t < n ==> #[trigger] m2.held(t) == m.held(t),
    ensures
        m2.held_below(n) == m.held_below(n),
    decreases n,
{
    if n > 0 {
        lemma_held_same(m, m2, (n - 1) as nat);
        assert(m2.held(n - 1) == m.held(n - 1));
    }
}

/// What the last step of a scan does to the lists of the participant: the
/// nodes that stay retired were retired and are named, the nodes that are
/// released were retired and are not named, no node is in both parts or twice
/// in one, and the nodes that stay are no more than the slots that were read.
proof fn lemma_scan_parts(m: Model, t: int)
    requires
        m.inv(),
        0 <= t < m.participants.len(),
        m.participants[t].phase is Scan,
    ensures
        ({
            let p = m.participants[t];
            let seen = p.seen.push(m.memory.hazard[p.phase->Scan_cursor as int]);
            let kept = p.retired.filter(named_in(seen));
            let freed = p.retired.filter(absent_from(seen));
            &&& forall|x: u64|
                #[trigger] seen.contains(x) <==> p.seen.contains(x) || x
                    == m.memory.hazard[p.phase->Scan_cursor as int]
            &&& forall|i: int|
                0 <= i < kept.len() ==> p.retired.contains(#[trigger] kept[i]) && seen.contains(
                    kept[i],
                )
            &&& forall|i: int|
                0 <= i < freed.len() ==> p.retired.contains(#[trigger] freed[i]) && !seen.contains(
                    freed[i],
                )
            &&& kept.no_duplicates()
            &&& (p.spare + freed).no_duplicates()
            &&& kept.len() <= seen.len()
            &&& kept.len() + freed.len() == p.retired.len()
        }),
{
    let p = m.participants[t];
    let w = m.memory.hazard[p.phase->Scan_cursor as int];
    let seen = p.seen.push(w);
    let kept = p.retired.filter(named_in(seen));
    let freed = p.retired.filter(absent_from(seen));
    assert(m.seated(t));
    assert(m.holdings(t));
    lemma_push_contains(p.seen, w);
    lemma_filter_keeps(p.retired, named_in(seen));
    lemma_filter_keeps(p.retired, absent_from(seen));
    lemma_filter_split(p.retired, seen);
    assert forall|i: int| 0 <= i < kept.len() implies p.retired.contains(#[trigger] kept[i])
        && seen.contains(kept[i]) by {
        assert(kept.contains(kept[i]));
    }
    assert forall|i: int| 0 <= i < freed.len() implies p.retired.contains(#[trigger] freed[i])
        && !seen.contains(freed[i]) by {
        assert(freed.contains(freed[i]));
    }
    lemma_no_longer(kept, seen);
    assert forall|i: int, j: int| 0 <= i < p.spare.len() && 0 <= j < freed.len() implies p.spare[i]
        != freed[j] by {
        assert(p.retired.contains(freed[j]));
    }
    vstd::seq_lib::lemma_no_dup_in_concat(p.spare, freed);
}

/// What a change does to the payloads on the stack is what `content_after`
/// says.
proof fn lemma_change_content(m: Model, c: Change)
    requires
        m.inv(),
        m.allows(c),
    ensures
        m.content_after(c) == Some(m.after(c).content()),
{
    let m2 = m.after(c);
    if m.order.len() > 0 {
        assert(m.linked_at(m.order.len() - 1));
    }
    if c.who() is Some {
        assert(m.seated(c.who()->0));
        assert(m.grounded(c.who()->0));
    }
    assert forall|i: int| 0 <= i < m.order.len() implies m2.memory.value[m.order[i] as int]
        == m.memory.value[m.order[i] as int] by {
        assert(m.linked_at(i));
    }
    if c is Step {
        match m.effect(c->Step_0) {
            Some(Op::Push(value)) => {
                assert(m2.content() =~= m.content().push(value));
            },
            Some(Op::Pop(value)) => {
                assert(m.content().last() == value);
                assert(m2.content() =~= m.content().drop_last());
            },
            _ => {
                assert(m2.content() =~= m.content());
            },
        }
    } else {
        assert(m2.content() =~= m.content());
    }
}

/// A change leaves the parts of the system in agreement, and as many nodes
/// held as were handed out.
proof fn lemma_change_shape(m: Model, c: Change)
    requires
        m.inv(),
        m.allows(c),
    ensures
        m.after(c).shape(),
        m.after(c).untouched(),
        m.after(c).accounted(),
        m.after(c).participants.len() == m.participants.len(),
{
    let m2 = m.after(c);
    if m.order.len() > 0 {
        assert(m.linked_at(m.order.len() - 1));
    }
    match c.who() {
        Some(t) => {
            lemma_held_shift(m, m2, t, m.participants.len());
            assert(m.seated(t));
            assert(m.holdings(t));
            assert(m.grounded(t));
            if c is Step && m.participants[t].phase is Scan {
                lemma_scan_parts(m, t);
            }
        },
        None => {
            assert forall|t: int| 0 <= t < m.participants.len() implies #[trigger] m2.held(t)
                == m.held(t) by {}
            lemma_held_same(m, m2, m.participants.len());
        },
    }
    assert forall|u: int| 0 <= u < m2.participants.len() implies #[trigger] m2.seated(u) by {
        assert(m.seated(u));
    }
}

/// A change leaves the chain a chain.
proof fn lemma_change_chain(m: Model, c: Change)
    requires
        m.inv(),
        m.allows(c),
    ensures
        m.after(c).chain(),
{
    let m2 = m.after(c);
    if m.order.len() > 0 {
        assert(m.linked_at(m.order.len() - 1));
    }
    if c.who() is Some {
        let t = c.who()->0;
        assert(m.seated(t));
        assert(m.holdings(t));
        assert(m.grounded(t));
        if c is Step && m.participants[t].phase is PushCas {
            assert forall|i: int| 0 <= i < m.order.len() implies m.order[i]
                != m.participants[t].phase->PushCas_node by {
                assert(m.linked_at(i));
            }
        }
    }
    assert forall|i: int| 0 <= i < m2.order.len() implies #[trigger] m2.linked_at(i) by {
        if i < m.order.len() {
            assert(m.linked_at(i));
        }
    }
}

/// A change leaves every participant in hold of the nodes in its lists.
proof fn lemma_change_holdings(m: Model, c: Change)
    requires
        m.inv(),
        m.allows(c),
    ensures
        forall|u: int|
            0 <= u < m.after(c).participants.len() ==> #[trigger] m.after(c).holdings(u),
{
    let m2 = m.after(c);
    if m.order.len() > 0 {
        assert(m.linked_at(m.order.len() - 1));
    }
    if c.who() is Some {
        let t = c.who()->0;
        assert(m.seated(t));
        assert(m.holdings(t));
        assert(m.grounded(t));
        if c is Step && m.participants[t].phase is Scan {
            lemma_scan_parts(m, t);
        }
    }
    assert forall|u: int| 0 <= u < m2.participants.len() implies #[trigger] m2.holdings(u) by {
        assert(m.holdings(u));
        assert(m.seated(u));
        let p = m.participants[u];
        let moved = m2.participants[u];
        if c == Change::Step(u) && p.phase is Scan && moved.phase is Done {
            let seen = p.seen.push(m.memory.hazard[p.phase->Scan_cursor as int]);
            let freed = p.retired.filter(absent_from(seen));
            assert(moved.retired == p.retired.filter(named_in(seen)));
            assert(moved.spare == p.spare + freed);
            assert(m2.status == m.released(u, seen));
            assert(seen.len() == m.participants.len());
            assert forall|i: int| 0 <= i < moved.spare.len() implies m2.status[(
            #[trigger] moved.spare[i]) as int] == Status::Released(u) by {
                if i >= p.spare.len() {
                    assert(moved.spare[i] == freed[i - p.spare.len()]);
                }
            }
        }
    }
}

/// A change leaves the phase of every participant on its ground.
#[verifier::rlimit(40)]
#[verifier::spinoff_prover]
proof fn lemma_change_grounded(m: Model, c: Change)
    requires
        m.inv(),
        m.allows(c),
    ensures
        forall|u: int|
            0 <= u < m.after(c).participants.len() ==> #[trigger] m.after(c).grounded(u),
{
    let m2 = m.after(c);
    if m.order.len() > 0 {
        assert(m.linked_at(m.order.len() - 1));
    }
    if c.who() is Some {
        let t = c.who()->0;
        assert(m.seated(t));
        assert(m.holdings(t));
        assert(m.grounded(t));
        if c is Step {
            if m.participants[t].phase is Scan {
                lemma_scan_parts(m, t);
            }
            if m.event(t) is Some {
                assert(m2.history == m.history.push(m.event(t)->0));
            } else {
                assert(m2.history == m.history);
            }
        }
    }
    assert forall|u: int| 0 <= u < m2.participants.len() implies #[trigger] m2.grounded(u) by {
        assert(m.grounded(u));
        assert(m.seated(u));
        if c is Step && m.event(c->Step_0) is Some {
            lemma_last_by_push(m.history, m.event(c->Step_0)->0, u);
        }
    }
}

/// Every change keeps the invariant, and does to the payloads on the stack
/// what `content_after` says.
pub proof fn lemma_change_inv(m: Model, c: Change)
    requires
        m.inv(),
        m.allows(c),
    ensures
        m.after(c).inv(),
        m.after(c).participants.len() == m.participants.len(),
        m.content_after(c) == Some(m.after(c).content()),
{
    lemma_change_content(m, c);
    lemma_change_shape(m, c);
    lemma_change_chain(m, c);
    lemma_change_holdings(m, c);
    lemma_change_grounded(m, c);
    if c is Step && m.event(c->Step_0) is Some {
        lemma_replay_push(m.history, m.event(c->Step_0)->0);
    }
}

/// Every step keeps the invariant, and does to the payloads on the stack what
/// its effect says.
pub proof fn lemma_step_inv(m: Model, t: int)
    requires
        m.inv(),
    ensures
        m.step(t).inv(),
        0 <= t < m.participants.len() && m.participants[t].phase.active() ==> m.settled(t) == Some(
            m.step(t).content(),
        ),
{
    if m.allows(Change::Step(t)) {
        lemma_change_inv(m, Change::Step(t));
    }
}

/// Starting a push keeps the invariant.
pub proof fn lemma_begin_push_inv(m: Model, t: int, value: u64)
    requires
        m.inv(),
        0 <= t < m.participants.len(),
        !m.participants[t].phase.active(),
    ensures
        m.begin_push(t, value).inv(),
        m.begin_push(t, value).content() == m.content(),
{
    lemma_change_inv(m, Change::BeginPush(t, value));
}

/// Starting a pop keeps the invariant.
pub proof fn lemma_begin_pop_inv(m: Model, t: int)
    requires
        m.inv(),
        0 <= t < m.participants.len(),
        !m.participants[t].phase.active(),
    ensures
        m.begin_pop(t).inv(),
        m.begin_pop(t).content() == m.content(),
{
    lemma_change_inv(m, Change::BeginPop(t));
}

/// Handing over how an operation ended keeps the invariant.
pub proof fn lemma_finish_inv(m: Model, t: int)
    requires
        m.inv(),
        0 <= t < m.participants.len(),
        m.participants[t].phase is Done,
    ensures
        m.finish(t).inv(),
        m.finish(t).content() == m.content(),
{
    lemma_change_inv(m, Change::Finish(t));
}

/// Enlarging the store keeps the invariant, and leaves the stack and what
/// every participant holds as they were.
pub proof fn lemma_enlarged_inv(m: Model, nodes: nat)
    requires
        m.inv(),
        nodes <= NIL,
    ensures
        m.enlarged(nodes).inv(),
        m.enlarged(nodes).content() == m.content(),
        m.enlarged(nodes).nodes() == (if nodes <= m.nodes() {
            m.nodes()
        } else {
            nodes
        }),
        m.enlarged(nodes).participants.len() == m.participants.len(),
        forall|t: int|
            0 <= t < m.participants.len() ==> #[trigger] m.enlarged(nodes).held(t) == m.held(t),
{
    if nodes > m.nodes() {
        lemma_change_inv(m, Change::Enlarge(nodes));
        assert forall|t: int| 0 <= t < m.participants.len() implies #[trigger] m.enlarged(
            nodes,
        ).held(t) == m.held(t) by {}
    }
}

} // verus!
