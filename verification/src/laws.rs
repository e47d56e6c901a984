//! What follows from the contracts and the invariant: the order in which
//! payloads come back, that none is lost or made up, and that no node is
//! released or linked again while a participant may still read it.

use vstd::prelude::*;
use vstd::multiset::Multiset;
use crate::cell::NIL;
use crate::model::last_by;
use crate::model::replay;
use crate::model::rest;
use crate::model::top;
use crate::model::Event;
use crate::model::Model;
use crate::model::Op;
use crate::model::Status;
use crate::participant::Outcome;
use crate::participant::Phase;
use crate::safety::lemma_change_inv;
use crate::safety::lemma_start_inv;
use crate::safety::Change;
use crate::schedule::lemma_play_inv;
use crate::schedule::Turn;

verus! {

/// A stack after the payloads of `values` were pushed on it, first to last.
pub open spec fn after_pushes(base: Seq<u64>, values: Seq<u64>) -> Seq<u64>
    decreases values.len(),
{
    if values.len() == 0 {
        base
    } else {
        after_pushes(base, values.drop_last()).push(values.last())
    }
}

/// A stack after `count` pops.
pub open spec fn after_pops(base: Seq<u64>, count: nat) -> Seq<u64>
    decreases count,
{
    if count == 0 {
        base
    } else {
        rest(after_pops(base, (count - 1) as nat))
    }
}

/// Pushing a list of payloads puts them on the stack in their order.
pub proof fn lemma_after_pushes(base: Seq<u64>, values: Seq<u64>)
    ensures
        after_pushes(base, values) == base + values,
    decreases values.len(),
{
    if values.len() == 0 {
        assert(base + values =~= base);
    } else {
        lemma_after_pushes(base, values.drop_last());
        assert((base + values.drop_last()).push(values.last()) =~= base + values);
    }
}

/// Popping `count` times takes the last `count` payloads off, or all of them.
pub proof fn lemma_after_pops(base: Seq<u64>, count: nat)
    ensures
        after_pops(base, count) == (if count <= base.len() {
            base.take(base.len() - count)
        } else {
            Seq::empty()
        }),
    decreases count,
{
    if count == 0 {
        assert(base.take(base.len() as int) =~= base);
    } else {
        lemma_after_pops(base, (count - 1) as nat);
        if count <= base.len() {
            assert(base.take(base.len() - count + 1).drop_last() =~= base.take(base.len() - count));
        }
    }
}

/// Last in, first out: after `values` were pushed on an empty stack, first to
/// last, the pop that follows `k` earlier pops hands back the payload pushed
/// `k` places before the last; and once as many pops as pushes are done, every
/// pop finds the stack empty.
pub proof fn lemma_lifo(values: Seq<u64>, k: nat)
    ensures
        k < values.len() ==> top(after_pops(after_pushes(Seq::empty(), values), k)) == Some(
            values[values.len() - 1 - k],
        ),
        k >= values.len() ==> top(after_pops(after_pushes(Seq::empty(), values), k)) == None::<u64>,
        k >= values.len() ==> after_pops(after_pushes(Seq::empty(), values), k) == Seq::<
            u64,
        >::empty(),
{
    lemma_after_pushes(Seq::empty(), values);
    assert(Seq::<u64>::empty() + values =~= values);
    lemma_after_pops(values, k);
    if k == values.len() {
        assert(values.take(0) =~= Seq::<u64>::empty());
    }
}

/// A pop that follows a push hands back the pushed payload and leaves the
/// stack as it was before the push.
pub proof fn lemma_round_trip(base: Seq<u64>, value: u64)
    ensures
        top(base.push(value)) == Some(value),
        rest(base.push(value)) == base,
{
    assert(base.push(value).drop_last() =~= base);
}

/// However often an empty stack is popped, each pop finds it empty and leaves
/// it empty.
pub proof fn lemma_empty_pops(count: nat)
    ensures
        after_pops(Seq::empty(), count) == Seq::<u64>::empty(),
        top(after_pops(Seq::empty(), count)) == None::<u64>,
    decreases count,
{
    if count > 0 {
        lemma_empty_pops((count - 1) as nat);
    }
}

/// The payloads that the pushes of a history put on the stack, each as often
/// as it was pushed.
pub open spec fn pushed(history: Seq<Event>) -> Multiset<u64>
    decreases history.len(),
{
    if history.len() == 0 {
        Multiset::empty()
    } else {
        match history.last().op {
            Op::Push(v) => pushed(history.drop_last()).insert(v),
            _ => pushed(history.drop_last()),
        }
    }
}

/// The payloads that the pops of a history took off the stack, each as often
/// as it was popped.
pub open spec fn popped(history: Seq<Event>) -> Multiset<u64>
    decreases history.len(),
{
    if history.len() == 0 {
        Multiset::empty()
    } else {
        match history.last().op {
            Op::Pop(v) => popped(history.drop_last()).insert(v),
            _ => popped(history.drop_last()),
        }
    }
}

/// Conservation, of histories: in a history that a stack can go through, what
/// was pushed is what was popped together with what the stack still holds,
/// each payload counted as often as it occurs.
pub proof fn lemma_history_conserves(history: Seq<Event>)
    requires
        replay(history) is Some,
    ensures
        pushed(history) == popped(history).add(replay(history)->0.to_multiset()),
    decreases history.len(),
{
    broadcast use vstd::seq_lib::to_multiset_build;

    if history.len() == 0 {
        Seq::<u64>::empty().to_multiset_ensures();
        assert(Seq::<u64>::empty().to_multiset() =~= Multiset::empty());
        assert(pushed(history) =~= popped(history).add(Multiset::empty()));
    } else {
        let earlier = history.drop_last();
        lemma_history_conserves(earlier);
        let content = replay(earlier)->0;
        match history.last().op {
            Op::Push(v) => {
                assert(replay(history)->0 == content.push(v));
                assert(pushed(history) =~= popped(history).add(content.push(v).to_multiset()));
            },
            Op::Pop(v) => {
                assert(content =~= content.drop_last().push(v));
                assert(content.to_multiset() =~= content.drop_last().to_multiset().insert(v));
                assert(pushed(history) =~= popped(history).add(content.drop_last().to_multiset()));
            },
            Op::PopEmpty => {},
        }
    }
}

/// Conservation: whatever steps the participants have taken and in whatever
/// order, the payloads pushed so far are the payloads popped so far together
/// with those on the stack, each counted as often as it occurs. None is lost,
/// none comes back twice, none comes from nowhere. In particular, once as many
/// payloads were popped as were pushed, the stack is empty and the popped
/// payloads are the pushed ones.
pub proof fn lemma_conservation(m: Model)
    requires
        m.inv(),
    ensures
        pushed(m.history) == popped(m.history).add(m.content().to_multiset()),
        pushed(m.history).len() == popped(m.history).len() + m.content().len(),
        pushed(m.history).len() == popped(m.history).len() ==> m.content().len() == 0 && pushed(
            m.history,
        ) == popped(m.history),
{
    broadcast use vstd::multiset::group_multiset_axioms;

    lemma_history_conserves(m.history);
    m.content().to_multiset_ensures();
    if m.content().len() == 0 {
        assert(m.content().to_multiset() =~= Multiset::empty());
        assert(popped(m.history).add(Multiset::empty()) =~= popped(m.history));
    }
}

/// Exhaustion is real: when a participant finds no node for a push, the store
/// has no unused node left, and every node of the store is linked or in the
/// hands of a participant.
pub proof fn lemma_exhausted(m: Model, t: int)
    requires
        m.inv(),
        0 <= t < m.participants.len(),
        !m.can_claim(t),
    ensures
        m.memory.fresh == m.nodes(),
        m.nodes() == m.content().len() + m.held_below(m.peers()),
{
}

/// The node that participant `t` is about to read through, if it is: the one
/// it has announced and seen on top since.
pub open spec fn protected(m: Model, t: int) -> Option<u64> {
    match m.participants[t].phase {
        Phase::Follow { node } => Some(node),
        Phase::PopCas { node, .. } => Some(node),
        _ => None,
    }
}

/// No use after release: while a participant is about to read through a node,
/// the node is linked or waits to be released. It is not unused, no
/// participant prepares it for a push, and it is among the spare nodes of
/// none, so that it cannot be linked again under the reader's eyes.
pub proof fn lemma_protected_stays(m: Model, t: int, u: int)
    requires
        m.inv(),
        0 <= t < m.participants.len(),
        0 <= u < m.participants.len(),
        protected(m, t) is Some,
    ensures
        m.memory.hazard[t] == protected(m, t)->0,
        match m.holder(protected(m, t)->0) {
            Status::Linked => true,
            Status::Unlinked(_) => true,
            Status::Retired(_) => true,
            _ => false,
        },
        !m.participants[u].spare.contains(protected(m, t)->0),
        match m.participants[u].phase {
            Phase::Fill { node, .. } => node != protected(m, t)->0,
            Phase::PushRead { node, .. } => node != protected(m, t)->0,
            Phase::Link { node, .. } => node != protected(m, t)->0,
            Phase::PushCas { node, .. } => node != protected(m, t)->0,
            _ => true,
        },
{
    assert(m.grounded(t));
    assert(m.grounded(u));
    assert(m.holdings(u));
    assert(m.seated(t));
}

/// No stale success: when the compare-and-swap of a pop finds the head equal
/// to the node it protects, that node is the top of the stack and the word it
/// swaps in is the node below, or `NIL` at the bottom.
pub proof fn lemma_no_stale_swap(m: Model, t: int)
    requires
        m.inv(),
        0 <= t < m.participants.len(),
        m.participants[t].phase is PopCas,
        m.memory.head == m.participants[t].phase->PopCas_node,
    ensures
        m.order.len() > 0,
        m.order.last() == m.participants[t].phase->PopCas_node,
        m.participants[t].phase->PopCas_next == (if m.order.len() == 1 {
            NIL
        } else {
            m.order[m.order.len() - 2]
        }),
{
    assert(m.grounded(t));
    assert(m.seated(t));
    if m.order.len() > 0 {
        assert(m.linked_at(m.order.len() - 1));
    }
}

/// Bounded retirement: a participant holds back at most as many unlinked nodes
/// as there are hazard slots, and one more while it scans.
pub proof fn lemma_retired_bound(m: Model, t: int)
    requires
        m.inv(),
        0 <= t < m.participants.len(),
    ensures
        m.participants[t].retired.len() <= m.participants.len() + 1,
        !(m.participants[t].phase is Scan) ==> m.participants[t].retired.len()
            <= m.participants.len(),
{
    assert(m.holdings(t));
}

/// No double release: a node is in the lists of one participant only, and
/// there once; and a node in a list is not linked.
pub proof fn lemma_single_holder(m: Model, t: int, u: int, node: u64)
    requires
        m.inv(),
        0 <= t < m.participants.len(),
        0 <= u < m.participants.len(),
        m.participants[t].spare.contains(node) || m.participants[t].retired.contains(node),
    ensures
        !(m.participants[t].spare.contains(node) && m.participants[t].retired.contains(node)),
        m.participants[t].spare.no_duplicates(),
        m.participants[t].retired.no_duplicates(),
        u != t ==> !m.participants[u].spare.contains(node) && !m.participants[u].retired.contains(
            node,
        ),
        !m.order.contains(node),
{
    assert(m.holdings(t));
    assert(m.holdings(u));
    assert forall|i: int| 0 <= i < m.order.len() implies m.order[i] != node by {
        assert(m.linked_at(i));
    }
}

/// A failed attempt means that another operation got through: when a
/// participant that has read the head finds it changed, at its second read
/// or at its compare-and-swap, an operation has taken effect since it read.
pub proof fn lemma_retry_witness(m: Model, t: int)
    requires
        m.inv(),
        0 <= t < m.participants.len(),
        match m.participants[t].phase {
            Phase::PushCas { head, .. } => m.memory.head != head,
            Phase::PopCas { node, .. } => m.memory.head != node,
            Phase::Validate { node } => m.memory.head != node,
            _ => false,
        },
    ensures
        m.stamps[t] < m.history.len(),
{
    assert(m.grounded(t));
    assert(m.seated(t));
}

/// Whatever the participants do and in whatever order, the system stays within
/// its invariant: every state that a schedule reaches from a new stack
/// satisfies it.
pub proof fn lemma_reachable(nodes: nat, peers: nat, turns: Seq<Turn>)
    requires
        nodes <= NIL,
        peers <= NIL,
    ensures
        Model::start(nodes, peers).play(turns).inv(),
{
    lemma_start_inv(nodes, peers);
    lemma_play_inv(Model::start(nodes, peers), turns);
}

/// The system after the changes of a list, first to last. A change that the
/// system does not allow when its turn comes leaves it as it is.
pub open spec fn through(m: Model, changes: Seq<Change>) -> Model
    decreases changes.len(),
{
    if changes.len() == 0 {
        m
    } else {
        let before = through(m, changes.drop_last());
        if before.allows(changes.last()) {
            before.after(changes.last())
        } else {
            before
        }
    }
}

/// Steps, starts, ends and enlargements of the store, in whatever order and
/// however many: the system stays within its invariant, with the participants
/// it had.
pub proof fn lemma_through_inv(m: Model, changes: Seq<Change>)
    requires
        m.inv(),
    ensures
        through(m, changes).inv(),
        through(m, changes).participants.len() == m.participants.len(),
    decreases changes.len(),
{
    if changes.len() > 0 {
        lemma_through_inv(m, changes.drop_last());
        let before = through(m, changes.drop_last());
        if before.allows(changes.last()) {
            lemma_change_inv(before, changes.last());
        }
    }
}

/// The word that following `steps` links from the head arrives at. From `NIL`
/// there is nowhere to go.
pub open spec fn reach(m: Model, steps: nat) -> u64
    decreases steps,
{
    if steps == 0 {
        m.memory.head
    } else {
        let at = reach(m, (steps - 1) as nat);
        if at == NIL {
            NIL
        } else {
            m.memory.next[at as int]
        }
    }
}

/// The chain is finite and without cycle: following the links from the head
/// passes through the linked nodes from the top down, and arrives at `NIL`
/// after as many links as there are payloads.
pub proof fn lemma_chain_ends(m: Model, steps: nat)
    requires
        m.inv(),
        steps <= m.order.len(),
    ensures
        steps < m.order.len() ==> reach(m, steps) == m.order[m.order.len() - 1 - steps],
        steps == m.order.len() ==> reach(m, steps) == NIL,
    decreases steps,
{
    if steps > 0 {
        lemma_chain_ends(m, (steps - 1) as nat);
        assert(m.linked_at(m.order.len() - steps));
    }
}

/// Linearizability: the operations that have taken effect form one history
/// that a stack can go through one operation at a time, and that history
/// leaves the payloads that are on the stack now.
pub proof fn lemma_linearizable(m: Model)
    requires
        m.inv(),
    ensures
        replay(m.history) == Some(m.content()),
{
}

/// What an operation hands back is what its place in the history says: a pop
/// that ends with a payload took that payload off, a pop that ends empty found
/// the stack empty, a push that ends as pushed put a payload on. No operation
/// ends as corrupt.
pub proof fn lemma_outcome_recorded(m: Model, t: int)
    requires
        m.inv(),
        0 <= t < m.participants.len(),
    ensures
        match m.participants[t].phase {
            Phase::Done(Outcome::Popped(value)) => last_by(m.history, t) == Some(Op::Pop(value)),
            Phase::Done(Outcome::Empty) => last_by(m.history, t) == Some(Op::PopEmpty),
            Phase::Done(Outcome::Pushed) => last_by(m.history, t) matches Some(Op::Push(_)),
            Phase::Done(Outcome::Corrupt) => false,
            _ => true,
        },
{
    assert(m.grounded(t));
}

} // verus!
