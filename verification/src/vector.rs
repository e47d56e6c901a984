//! A growable array that doubles its room when it is full.

use vstd::prelude::*;
use crate::stack::AllocationFailure;

verus! {

/// A growable array. It keeps room for `capacity` items and, when a push finds
/// it full, asks for twice as much.
pub struct UnsafeVector<T> {
    items: Vec<T>,
    cap: usize,
}

impl<T> View for UnsafeVector<T> {
    type V = Seq<T>;

    closed spec fn view(&self) -> Seq<T> {
        self.items@
    }
}

/// The room that a full array of room `capacity` asks for.
pub open spec fn grown(capacity: nat) -> nat {
    if capacity == 0 {
        1
    } else {
        2 * capacity
    }
}

impl<T> UnsafeVector<T> {
    /// The number of items that the array has room for.
    pub closed spec fn capacity(&self) -> nat {
        self.cap as nat
    }

    /// The items fit in the room.
    pub closed spec fn wf(&self) -> bool {
        self.items@.len() <= self.cap
    }

    /// An empty array without room.
    pub fn new() -> (v: Self)
        ensures
            v.wf(),
            v@ == Seq::<T>::empty(),
            v.capacity() == 0,
    {
        UnsafeVector { items: Vec::new(), cap: 0 }
    }

    /// The number of items.
    pub fn len(&self) -> (n: usize)
        ensures
            n == self@.len(),
    {
        self.items.len()
    }

    /// The number of items that the array has room for.
    pub fn room(&self) -> (n: usize)
        ensures
            n == self.capacity(),
    {
        self.cap
    }

    /// The item at `index`; none past the end.
    pub fn get(&self, index: usize) -> (item: Option<&T>)
        ensures
            item == (if index < self@.len() {
                Some(&self@[index as int])
            } else {
                None
            }),
    {
        if index < self.items.len() {
            Some(&self.items[index])
        } else {
            None
        }
    }

    /// Doubles the room of the array, from none to one. The items stay. Says
    /// whether it did: it does not when the doubled room is more than a
    /// `usize` can count, or when the allocator refuses it.
    fn grow(&mut self) -> (grew: bool)
        requires
            old(self).wf(),
        ensures
            final(self).wf(),
            final(self)@ == old(self)@,
            final(self).capacity() == (if grew {
                grown(old(self).capacity())
            } else {
                old(self).capacity()
            }),
            grown(old(self).capacity()) > usize::MAX ==> !grew,
    {
        match next_room(self.cap) {
            Some(room) => {
                let granted = self.items.try_reserve(room - self.items.len()).is_ok();
                self.settle(room, granted)
            },
            None => false,
        }
    }

    /// Takes the allocator's answer to the request for `room`: when the room
    /// was granted, the array has it from now on; when not, the array stays as
    /// it was. Says which.
    fn settle(&mut self, room: usize, granted: bool) -> (grew: bool)
        requires
            old(self).wf(),
            old(self).capacity() <= room,
        ensures
            final(self).wf(),
            grew == granted,
            final(self)@ == old(self)@,
            final(self).capacity() == (if granted {
                room as nat
            } else {
                old(self).capacity()
            }),
    {
        if granted {
            self.cap = room;
        }
        granted
    }

    /// Appends `item`, after doubling the room if the array is full. Fails,
    /// and leaves the array as it was, only when the array is full and cannot
    /// grow.
    pub fn push(&mut self, item: T) -> (r: Result<(), AllocationFailure>)
        requires
            old(self).wf(),
        ensures
            final(self).wf(),
            old(self)@.len() < old(self).capacity() ==> r is Ok,
            grown(old(self).capacity()) > usize::MAX && old(self)@.len() == old(self).capacity()
                ==> r is Err,
            r is Ok ==> final(self)@ == old(self)@.push(item) && final(self).capacity() == (
            if old(self)@.len() == old(self).capacity() {
                grown(old(self).capacity())
            } else {
                old(self).capacity()
            }),
            r is Err ==> final(self)@ == old(self)@ && final(self).capacity() == old(
                self,
            ).capacity(),
    {
        if self.items.len() == self.cap {
            if !self.grow() {
                return Err(AllocationFailure);
            }
        }
        self.items.push(item);
        Ok(())
    }
}

/// The room that a full array of room `room` asks for: one after none, else
/// twice as much; none when that is more than a `usize` can count.
pub fn next_room(room: usize) -> (next: Option<usize>)
    ensures
        next == (if grown(room as nat) <= usize::MAX {
            Some(grown(room as nat) as usize)
        } else {
            None
        }),
{
    if room == 0 {
        Some(1)
    } else {
        room.checked_mul(2)
    }
}

} // verus!
