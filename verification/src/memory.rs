//! A sequential model of the shared cells: each action takes effect at once
//! and as a whole.

use vstd::prelude::*;
use crate::cell::Action;
use crate::cell::Cell;
use crate::cell::Reply;
use crate::cell::NIL;

verus! {

/// What the cells hold.
pub struct MemoryView {
    pub head: u64,
    pub fresh: u64,
    pub next: Seq<u64>,
    pub value: Seq<u64>,
    pub hazard: Seq<u64>,
}

impl MemoryView {
    /// The number of nodes in the store.
    pub open spec fn nodes(self) -> nat {
        self.next.len()
    }

    /// The number of hazard slots.
    pub open spec fn slots(self) -> nat {
        self.hazard.len()
    }

    /// Every node has a link and a payload.
    pub open spec fn wf(self) -> bool {
        self.next.len() == self.value.len()
    }

    /// Whether the cell exists.
    pub open spec fn covers(self, c: Cell) -> bool {
        match c {
            Cell::Head => true,
            Cell::Fresh => true,
            Cell::Next(n) => n < self.next.len(),
            Cell::Value(n) => n < self.value.len(),
            Cell::Hazard(s) => s < self.hazard.len(),
        }
    }

    /// The word in a cell.
    pub open spec fn read(self, c: Cell) -> u64 {
        match c {
            Cell::Head => self.head,
            Cell::Fresh => self.fresh,
            Cell::Next(n) => self.next[n as int],
            Cell::Value(n) => self.value[n as int],
            Cell::Hazard(s) => self.hazard[s as int],
        }
    }

    /// The cells after `word` was put into `c`.
    pub open spec fn write(self, c: Cell, word: u64) -> MemoryView {
        match c {
            Cell::Head => MemoryView { head: word, ..self },
            Cell::Fresh => MemoryView { fresh: word, ..self },
            Cell::Next(n) => MemoryView { next: self.next.update(n as int, word), ..self },
            Cell::Value(n) => MemoryView { value: self.value.update(n as int, word), ..self },
            Cell::Hazard(s) => MemoryView { hazard: self.hazard.update(s as int, word), ..self },
        }
    }

    /// The cells after an action.
    pub open spec fn after(self, a: Action) -> MemoryView {
        match a {
            Action::Load(_) => self,
            Action::Store(c, word) => self.write(c, word),
            Action::Cas(c, expected, new) => if self.read(c) == expected {
                self.write(c, new)
            } else {
                self
            },
        }
    }

    /// The reply to an action.
    pub open spec fn reply(self, a: Action) -> Reply {
        match a {
            Action::Load(c) => Reply::Word(self.read(c)),
            Action::Store(_, _) => Reply::Stored,
            Action::Cas(c, expected, _) => Reply::Swapped(self.read(c) == expected),
        }
    }

    /// The cells after the store was enlarged to `nodes` nodes: every new node
    /// has the link `NIL` and the payload 0, and the cells that were there hold
    /// what they held. A store that has as many nodes already stays as it is.
    pub open spec fn enlarged(self, nodes: nat) -> MemoryView {
        if nodes <= self.next.len() {
            self
        } else {
            MemoryView {
                next: self.next + Seq::new((nodes - self.next.len()) as nat, |i: int| NIL),
                value: self.value + Seq::new((nodes - self.next.len()) as nat, |i: int| 0u64),
                ..self
            }
        }
    }

    /// The cells of a new store: no node handed out, nothing linked, every
    /// hazard slot clear.
    pub open spec fn fresh_store(nodes: nat, slots: nat) -> MemoryView {
        MemoryView {
            head: NIL,
            fresh: 0,
            next: Seq::new(nodes, |i: int| NIL),
            value: Seq::new(nodes, |i: int| 0u64),
            hazard: Seq::new(slots, |i: int| NIL),
        }
    }
}

/// A word below a length, as an index.
pub fn position(word: u64, len: usize) -> (at: usize)
    requires
        word < len,
    ensures
        at == word,
{
    word as usize
}

/// The shared cells, held by one owner who performs the actions one at a time.
pub struct Memory {
    head: u64,
    fresh: u64,
    next: Vec<u64>,
    value: Vec<u64>,
    hazard: Vec<u64>,
}

impl View for Memory {
    type V = MemoryView;

    closed spec fn view(&self) -> MemoryView {
        MemoryView {
            head: self.head,
            fresh: self.fresh,
            next: self.next@,
            value: self.value@,
            hazard: self.hazard@,
        }
    }
}

impl Memory {
    /// A store of `nodes` nodes and `slots` hazard slots.
    pub fn new(nodes: usize, slots: usize) -> (m: Memory)
        ensures
            m@ == MemoryView::fresh_store(nodes as nat, slots as nat),
            m@.wf(),
    {
        let m = Memory {
            head: NIL,
            fresh: 0,
            next: vec![NIL; nodes],
            value: vec![0u64; nodes],
            hazard: vec![NIL; slots],
        };
        assert(m@.next =~= Seq::new(nodes as nat, |i: int| NIL));
        assert(m@.value =~= Seq::new(nodes as nat, |i: int| 0u64));
        assert(m@.hazard =~= Seq::new(slots as nat, |i: int| NIL));
        m
    }

    /// The number of nodes in the store.
    pub fn node_count(&self) -> (n: usize)
        ensures
            n == self@.nodes(),
    {
        self.next.len()
    }

    /// Enlarges the store to `nodes` nodes, if the allocator grants the room
    /// for them. Says whether the store has that many nodes now: it does when
    /// it had them before, and else when the allocator granted the room. When
    /// not, the store stays as it was.
    pub fn enlarge(&mut self, nodes: usize) -> (granted: bool)
        requires
            old(self)@.wf(),
        ensures
            final(self)@ == (if granted {
                old(self)@.enlarged(nodes as nat)
            } else {
                old(self)@
            }),
            final(self)@.wf(),
            nodes <= old(self)@.nodes() ==> granted,
    {
        let have: usize = self.next.len();
        if nodes <= have {
            return true;
        }
        let granted = self.next.try_reserve(nodes - have).is_ok() && self.value.try_reserve(
            nodes - have,
        ).is_ok();
        self.extend(nodes, granted)
    }

    /// Takes the allocator's answer to the request for room for `nodes` nodes:
    /// when the room was granted, the store gets the new nodes; when not, it
    /// stays as it was. Says which.
    fn extend(&mut self, nodes: usize, granted: bool) -> (grew: bool)
        requires
            old(self)@.wf(),
        ensures
            grew == granted,
            final(self)@ == (if granted {
                old(self)@.enlarged(nodes as nat)
            } else {
                old(self)@
            }),
            final(self)@.wf(),
    {
        if granted {
            let ghost before = self@;
            while self.next.len() < nodes
                invariant
                    before.wf(),
                    self@.head == before.head,
                    self@.fresh == before.fresh,
                    self@.hazard == before.hazard,
                    before.next.len() <= self@.next.len(),
                    self@.next.len() == self@.value.len(),
                    self@.next.len() <= nodes || self@.next.len() == before.next.len(),
                    self@.next == before.next + Seq::new(
                        (self@.next.len() - before.next.len()) as nat,
                        |i: int| NIL,
                    ),
                    self@.value == before.value + Seq::new(
                        (self@.next.len() - before.next.len()) as nat,
                        |i: int| 0u64,
                    ),
                decreases nodes - self.next.len(),
            {
                self.next.push(NIL);
                self.value.push(0);
            }
        }
        granted
    }

    /// The word in a cell.
    pub fn read(&self, c: Cell) -> (word: u64)
        requires
            self@.covers(c),
        ensures
            word == self@.read(c),
    {
        match c {
            Cell::Head => self.head,
            Cell::Fresh => self.fresh,
            Cell::Next(n) => self.next[position(n, self.next.len())],
            Cell::Value(n) => self.value[position(n, self.value.len())],
            Cell::Hazard(s) => self.hazard[position(s, self.hazard.len())],
        }
    }

    /// Puts `word` into a cell.
    fn write(&mut self, c: Cell, word: u64)
        requires
            old(self)@.covers(c),
        ensures
            final(self)@ == old(self)@.write(c, word),
    {
        match c {
            Cell::Head => {
                self.head = word;
            },
            Cell::Fresh => {
                self.fresh = word;
            },
            Cell::Next(n) => {
                let at: usize = position(n, self.next.len());
                self.next.set(at, word);
            },
            Cell::Value(n) => {
                let at: usize = position(n, self.value.len());
                self.value.set(at, word);
            },
            Cell::Hazard(s) => {
                let at: usize = position(s, self.hazard.len());
                self.hazard.set(at, word);
            },
        }
    }

    /// Performs one action on the cells and hands back its reply.
    pub fn perform(&mut self, a: Action) -> (r: Reply)
        requires
            old(self)@.covers(a.cell()),
        ensures
            final(self)@ == old(self)@.after(a),
            r == old(self)@.reply(a),
    {
        match a {
            Action::Load(c) => Reply::Word(self.read(c)),
            Action::Store(c, word) => {
                self.write(c, word);
                Reply::Stored
            },
            Action::Cas(c, expected, new) => {
                let found: u64 = self.read(c);
                if found == expected {
                    self.write(c, new);
                    Reply::Swapped(true)
                } else {
                    Reply::Swapped(false)
                }
            },
        }
    }
}

} // verus!
