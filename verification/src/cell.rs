//! The vocabulary between a participant and shared memory: cells, the actions
//! on them, and the replies.

use vstd::prelude::*;

verus! {

/// The word that names no node: the empty head, the end of a chain, a cleared
/// hazard slot.
pub const NIL: u64 = 0xffff_ffff_ffff_ffff;

/// One word of shared memory.
#[derive(Clone, Copy, PartialEq, Eq, Debug, Structural)]
pub enum Cell {
    /// The reference to the top node, or `NIL`.
    Head,
    /// The number of nodes that were ever handed out; the next unused node.
    Fresh,
    /// The link of a node to the node below it, or `NIL`.
    Next(u64),
    /// The payload of a node.
    Value(u64),
    /// The hazard slot of a participant: the node it is about to read, or `NIL`.
    Hazard(u64),
}

/// One indivisible access to one cell.
#[derive(Clone, Copy, PartialEq, Eq, Debug, Structural)]
pub enum Action {
    /// Read the cell.
    Load(Cell),
    /// Overwrite the cell.
    Store(Cell, u64),
    /// Replace the second word for the third, if the cell holds the second.
    Cas(Cell, u64, u64),
}

/// What an action hands back.
#[derive(Clone, Copy, PartialEq, Eq, Debug, Structural)]
pub enum Reply {
    /// The word that a load found.
    Word(u64),
    /// A store took place.
    Stored,
    /// Whether a compare-and-swap replaced the word.
    Swapped(bool),
}

impl Action {
    /// The cell that the action touches.
    pub open spec fn cell(self) -> Cell {
        match self {
            Action::Load(c) => c,
            Action::Store(c, _) => c,
            Action::Cas(c, _, _) => c,
        }
    }

    /// Whether `reply` is of the kind that this action hands back.
    pub open spec fn answered_by(self, reply: Reply) -> bool {
        match self {
            Action::Load(_) => reply is Word,
            Action::Store(_, _) => reply is Stored,
            Action::Cas(_, _, _) => reply is Swapped,
        }
    }

    /// The cell that the action touches.
    pub fn target(self) -> (c: Cell)
        ensures
            c == self.cell(),
    {
        match self {
            Action::Load(c) => c,
            Action::Store(c, _) => c,
            Action::Cas(c, _, _) => c,
        }
    }
}

/// Whether a word can stand in a link: `NIL`, or a node below `nodes`.
pub open spec fn is_link(word: u64, nodes: u64) -> bool {
    word == NIL || word < nodes
}

} // verus!
