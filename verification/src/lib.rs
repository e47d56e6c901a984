//! A lock-free stack over an index-addressed node store, with hazard-slot
//! reclamation, written as a verified transition system.
//!
//! Every access to shared memory is one [`Action`] on one [`Cell`]; a
//! [`Participant`] decides which action comes next and what to do with the
//! reply. [`LockFreeStack`] runs participants against a sequential model of the
//! cells, one action per step and in any interleaving, and is proved to keep
//! its invariant under every step. Its store of nodes grows when a push finds
//! none left. [`SharedCells`] holds the same cells as atomics, for
//! participants that run on threads of their own; that store keeps the size it
//! was made with.

pub mod cell;
pub mod laws;
pub mod memory;
pub mod model;
pub mod participant;
pub mod progress;
pub mod reclaim;
pub mod safety;
pub mod schedule;
pub mod shared;
pub mod solo;
pub mod stack;
pub mod vector;

pub use cell::Action;
pub use cell::Cell;
pub use cell::Reply;
pub use cell::NIL;
pub use memory::Memory;
pub use memory::MemoryView;
pub use participant::Outcome;
pub use participant::Participant;
pub use participant::ParticipantView;
pub use participant::Phase;
pub use model::Event;
pub use model::Model;
pub use model::Op;
pub use model::Status;
pub use stack::AllocationFailure;
pub use stack::LockFreeStack;
pub use stack::DEFAULT_NODES;
pub use stack::DEFAULT_PEERS;
pub use schedule::Turn;
pub use shared::SharedCells;
pub use vector::UnsafeVector;
