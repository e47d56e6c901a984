//! The cells as atomics, for participants that run on threads of their own.
//!
//! The store of shared cells has the size that it was made with, for good: the
//! atomics are shared by reference, and no thread can put a larger store in
//! their place while others read them. A push on these cells ends as
//! exhausted once every node is linked or in the hands of a participant.
//!
//! Every access is sequentially consistent, so that a run on these cells is
//! one of the interleavings of the transition system. What a load or a
//! compare-and-swap finds depends on what the other threads have done: the
//! contracts here promise the kind of the reply and no more.

use vstd::prelude::*;
use std::sync::atomic::AtomicU64;
use std::sync::atomic::Ordering;
use crate::cell::Action;
use crate::cell::Cell;
use crate::cell::Reply;
use crate::cell::NIL;
use crate::memory::position;
use crate::participant::Participant;
use crate::participant::ParticipantView;

verus! {

/// The shared cells of one stack.
pub struct SharedCells {
    head: AtomicU64,
    fresh: AtomicU64,
    next: Vec<AtomicU64>,
    value: Vec<AtomicU64>,
    hazard: Vec<AtomicU64>,
    taken: Vec<AtomicU64>,
}

/// `count` cells that hold `word` each.
fn words(count: usize, word: u64) -> (cells: Vec<AtomicU64>)
    ensures
        cells@.len() == count,
{
    let mut cells: Vec<AtomicU64> = Vec::new();
    let mut i: usize = 0;
    while i < count
        invariant
            i <= count,
            cells@.len() == i,
        decreases count - i,
    {
        cells.push(AtomicU64::new(word));
        i += 1;
    }
    cells
}

/// The participant of hazard slot `slot`; none when there is no such slot.
fn seat(slot: usize, nodes: usize, slots: usize) -> (p: Option<Participant>)
    ensures
        p is Some <==> slot < slots,
        p matches Some(q) ==> q@ == ParticipantView::start(slot as u64, nodes as u64, slots as u64)
            && q@.wf(),
{
    Participant::new(slot as u64, nodes as u64, slots as u64)
}

/// Reads a cell. What it finds is up to the other threads.
fn load(cell: &AtomicU64) -> (word: u64) {
    cell.load(Ordering::SeqCst)
}

/// Overwrites a cell.
fn store(cell: &AtomicU64, word: u64) {
    cell.store(word, Ordering::SeqCst);
}

/// Replaces `expected` for `new` in a cell, if the cell holds `expected`. Says
/// whether it did; that is up to the other threads.
fn swap(cell: &AtomicU64, expected: u64, new: u64) -> (won: bool) {
    cell.compare_exchange(expected, new, Ordering::SeqCst, Ordering::SeqCst).is_ok()
}

impl ParticipantView {
    /// The participant after it has taken the replies of a list, first to last.
    pub open spec fn fed(self, replies: Seq<Reply>) -> ParticipantView
        decreases replies.len(),
    {
        if replies.len() == 0 {
            self
        } else {
            self.fed(replies.drop_last()).advance(replies.last())
        }
    }

    /// Each reply of the list is of the kind that the participant waited for
    /// when it came.
    pub open spec fn well_fed(self, replies: Seq<Reply>) -> bool
        decreases replies.len(),
    {
        replies.len() > 0 ==> {
            let before = self.fed(replies.drop_last());
            &&& self.well_fed(replies.drop_last())
            &&& before.action() matches Some(a) && a.answered_by(replies.last())
        }
    }
}

/// Whatever the replies, a push stays a push and a pop stays a pop: a push
/// ends as pushed, exhausted or corrupt, a pop with a payload, empty or
/// corrupt.
pub proof fn lemma_fed_in_kind(p: ParticipantView, replies: Seq<Reply>)
    ensures
        p.phase.of_push() ==> p.fed(replies).phase.of_push(),
        p.phase.of_pop() ==> p.fed(replies).phase.of_pop(),
    decreases replies.len(),
{
    if replies.len() > 0 {
        lemma_fed_in_kind(p, replies.drop_last());
    }
}

impl SharedCells {
    /// The number of nodes in the store.
    pub closed spec fn nodes(&self) -> nat {
        self.next@.len()
    }

    /// The number of hazard slots.
    pub closed spec fn slots(&self) -> nat {
        self.hazard@.len()
    }

    /// Every node has a link and a payload, and every hazard slot a mark that
    /// says whether a participant has taken it.
    pub closed spec fn wf(&self) -> bool {
        self.next@.len() == self.value@.len() && self.taken@.len() == self.hazard@.len()
    }

    /// Whether the cell exists.
    pub open spec fn covers(&self, c: Cell) -> bool {
        match c {
            Cell::Head => true,
            Cell::Fresh => true,
            Cell::Next(n) => n < self.nodes(),
            Cell::Value(n) => n < self.nodes(),
            Cell::Hazard(s) => s < self.slots(),
        }
    }

    /// Whether the participant was made for a store of this size.
    pub open spec fn seats(&self, p: ParticipantView) -> bool {
        p.wf() && p.nodes == self.nodes() && p.peers == self.slots()
    }

    /// The cells of a new store of `nodes` nodes and `slots` hazard slots: no
    /// node handed out, nothing linked, every hazard slot clear.
    pub fn new(nodes: usize, slots: usize) -> (cells: SharedCells)
        ensures
            cells.wf(),
            cells.nodes() == nodes,
            cells.slots() == slots,
    {
        SharedCells {
            head: AtomicU64::new(NIL),
            fresh: AtomicU64::new(0),
            next: words(nodes, NIL),
            value: words(nodes, 0),
            hazard: words(slots, NIL),
            taken: words(slots, 0),
        }
    }

    /// The number of nodes in the store.
    pub fn node_count(&self) -> (n: usize)
        ensures
            n == self.nodes(),
    {
        self.next.len()
    }

    /// The number of hazard slots.
    pub fn slot_count(&self) -> (n: usize)
        ensures
            n == self.slots(),
    {
        self.hazard.len()
    }

    /// Takes a hazard slot that no participant has taken yet, and hands back
    /// the participant that sits at it from now on. None when the store has no
    /// slot; and none is handed back when every slot turns out to be taken.
    pub fn register(&self) -> (p: Option<Participant>)
        requires
            self.wf(),
        ensures
            self.slots() == 0 ==> p is None,
            p matches Some(q) ==> self.seats(q@) && q@ == ParticipantView::start(
                q@.slot,
                self.nodes() as u64,
                self.slots() as u64,
            ),
    {
        let nodes: usize = self.next.len();
        let slots: usize = self.taken.len();
        let mut slot: usize = 0;
        while slot < slots
            invariant
                self.wf(),
                slot <= slots,
                slots == self.taken@.len(),
                nodes == self.next@.len(),
            decreases slots - slot,
        {
            let won = swap(&self.taken[slot], 0, 1);
            match claimed_seat(won, slot, nodes, slots) {
                Some(p) => {
                    return Some(p);
                },
                None => {},
            }
            slot += 1;
        }
        None
    }

    /// The atomic behind a cell; none when the cell does not exist.
    fn cell(&self, c: Cell) -> (found: Option<&AtomicU64>)
        requires
            self.wf(),
        ensures
            found is Some <==> self.covers(c),
            found == (match c {
                Cell::Head => Some(&self.head),
                Cell::Fresh => Some(&self.fresh),
                Cell::Next(n) => if n < self.next@.len() {
                    Some(&self.next@[n as int])
                } else {
                    None
                },
                Cell::Value(n) => if n < self.value@.len() {
                    Some(&self.value@[n as int])
                } else {
                    None
                },
                Cell::Hazard(s) => if s < self.hazard@.len() {
                    Some(&self.hazard@[s as int])
                } else {
                    None
                },
            }),
    {
        match c {
            Cell::Head => Some(&self.head),
            Cell::Fresh => Some(&self.fresh),
            Cell::Next(n) => if n < self.next.len() as u64 {
                Some(&self.next[position(n, self.next.len())])
            } else {
                None
            },
            Cell::Value(n) => if n < self.value.len() as u64 {
                Some(&self.value[position(n, self.value.len())])
            } else {
                None
            },
            Cell::Hazard(s) => if s < self.hazard.len() as u64 {
                Some(&self.hazard[position(s, self.hazard.len())])
            } else {
                None
            },
        }
    }

    /// Performs one action on the cells, as one indivisible access. Hands back
    /// its reply; none, and nothing done, when the cell does not exist.
    pub fn perform(&self, a: Action) -> (r: Option<Reply>)
        requires
            self.wf(),
        ensures
            r is Some <==> self.covers(a.cell()),
            r matches Some(reply) ==> a.answered_by(reply),
    {
        match a {
            Action::Load(c) => match self.cell(c) {
                Some(cell) => Some(Reply::Word(load(cell))),
                None => None,
            },
            Action::Store(c, word) => match self.cell(c) {
                Some(cell) => {
                    store(cell, word);
                    Some(Reply::Stored)
                },
                None => None,
            },
            Action::Cas(c, expected, new) => match self.cell(c) {
                Some(cell) => Some(Reply::Swapped(swap(cell, expected, new))),
                None => None,
            },
        }
    }

    /// Lets the participant perform the action it waits on and take the reply.
    /// Hands back the reply; none, and nothing done, when the participant
    /// waits on nothing.
    pub fn step(&self, p: &mut Participant) -> (r: Option<Reply>)
        requires
            self.wf(),
            self.seats(old(p)@),
        ensures
            self.seats(final(p)@),
            r is Some <==> old(p)@.phase.active(),
            match r {
                Some(reply) => old(p)@.action() matches Some(a) && a.answered_by(reply)
                    && final(p)@ == old(p)@.advance(reply),
                None => final(p)@ == old(p)@,
            },
    {
        match p.action() {
            Some(a) => match self.perform(a) {
                Some(reply) => {
                    p.advance(reply);
                    Some(reply)
                },
                None => None,
            },
            None => None,
        }
    }

    /// Lets the participant take steps until its operation has ended, but no
    /// more than `budget` of them: it stops short of the budget only when the
    /// operation has ended. Says whether the operation has ended. Whatever the
    /// other threads do meanwhile, the participant ends up where its own
    /// transitions lead on replies of the right kinds.
    pub fn run(&self, p: &mut Participant, budget: u64) -> (done: bool)
        requires
            self.wf(),
            self.seats(old(p)@),
        ensures
            self.seats(final(p)@),
            done <==> !final(p)@.phase.active(),
            exists|replies: Seq<Reply>|
                {
                    &&& replies.len() <= budget
                    &&& done || replies.len() == budget
                    &&& old(p)@.well_fed(replies)
                    &&& final(p)@ == old(p)@.fed(replies)
                },
            old(p)@.phase.of_push() ==> final(p)@.phase.of_push(),
            old(p)@.phase.of_pop() ==> final(p)@.phase.of_pop(),
    {
        let ghost first = p@;
        let ghost mut replies: Seq<Reply> = Seq::empty();
        let mut left: u64 = budget;
        while left > 0 && p.phase().is_active()
            invariant
                self.wf(),
                self.seats(p@),
                replies.len() + left == budget,
                first.well_fed(replies),
                p@ == first.fed(replies),
            decreases left,
        {
            let ghost before = replies;
            let r = self.step(p);
            proof {
                replies = replies.push(r->0);
                assert(replies.drop_last() =~= before);
            }
            left -= 1;
        }
        proof {
            lemma_fed_in_kind(first, replies);
        }
        !p.phase().is_active()
    }
}

/// What a swap on the mark of hazard slot `slot` comes to: the participant of
/// that slot when the swap was won, none when it was lost or there is no such
/// slot.
pub fn claimed_seat(won: bool, slot: usize, nodes: usize, slots: usize) -> (p: Option<Participant>)
    ensures
        p is Some <==> won && slot < slots,
        p matches Some(q) ==> q@ == ParticipantView::start(slot as u64, nodes as u64, slots as u64)
            && q@.wf(),
{
    if won {
        seat(slot, nodes, slots)
    } else {
        None
    }
}

} // verus!
