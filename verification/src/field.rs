//! Tri-state piece map: one byte per piece, each slot empty, in progress,
//! or complete.

use vstd::prelude::*;
use crate::SUBPIECE_LEN;

verus! {

/// Slot state: nobody is working on the piece and it is not verified.
pub const EMPTY: u8 = 0;
/// Slot state: exactly one actor has reserved the piece.
pub const IN_PROGRESS: u8 = 1;
/// Slot state: the piece was hashed against its published digest and stored.
pub const COMPLETE: u8 = 2;

/// Fixed-length array of piece states, one slot per piece index.
pub struct ByteField {
    pub arr: Vec<u8>,
}

impl ByteField {
    /// Every slot holds one of the three defined states.
    pub open spec fn wf(&self) -> bool {
        forall|i: int| 0 <= i < self.arr@.len() ==> self.arr@[i] <= COMPLETE
    }

    /// All slots are complete.
    pub open spec fn spec_is_full(&self) -> bool {
        forall|i: int| 0 <= i < self.arr@.len() ==> self.arr@[i] == COMPLETE
    }

    /// Makes an all-empty map with one slot per piece.
    pub fn new(num_pieces: usize) -> (r: ByteField)
        ensures
            r.arr@.len() == num_pieces,
            forall|i: int| 0 <= i < num_pieces ==> r.arr@[i] == EMPTY,
            r.wf(),
    {
        let mut arr: Vec<u8> = Vec::new();
        let mut i: usize = 0;
        while i < num_pieces
            invariant
                i <= num_pieces,
                arr@.len() == i,
                forall|j: int| 0 <= j < i ==> arr@[j] == EMPTY,
            decreases num_pieces - i,
        {
            arr.push(EMPTY);
            i += 1;
        }
        ByteField { arr }
    }

    /// Returns true exactly when every slot is marked complete.
    pub fn is_full(&self) -> (r: bool)
        requires
            self.wf(),
        ensures
            r == self.spec_is_full(),
    {
        let mut i: usize = 0;
        while i < self.arr.len()
            invariant
                i <= self.arr@.len(),
                self.wf(),
                forall|j: int| 0 <= j < i ==> self.arr@[j] == COMPLETE,
            decreases self.arr@.len() - i,
        {
            if self.arr[i] < COMPLETE {
                return false;
            }
            i += 1;
        }
        true
    }

    /// Returns the lowest empty slot, or none when no slot is empty.
    pub fn get_empty(&self) -> (r: Option<usize>)
        ensures
            match r {
                Some(i) => i < self.arr@.len() && self.arr@[i as int] == EMPTY
                    && forall|j: int| 0 <= j < i ==> self.arr@[j] != EMPTY,
                None => forall|j: int| 0 <= j < self.arr@.len() ==> self.arr@[j] != EMPTY,
            },
    {
        let mut i: usize = 0;
        while i < self.arr.len()
            invariant
                i <= self.arr@.len(),
                forall|j: int| 0 <= j < i ==> self.arr@[j] != EMPTY,
            decreases self.arr@.len() - i,
        {
            if self.arr[i] == EMPTY {
                return Some(i);
            }
            i += 1;
        }
        None
    }

    /// Records an arrived sub-piece in a fetch bitmap: the slot named by
    /// the block offset becomes complete (an offset past the map changes
    /// nothing), and whether every slot is now complete is returned.
    pub fn mark_subpiece(&mut self, offset: u32) -> (full: bool)
        requires
            old(self).wf(),
        ensures
            final(self).wf(),
            ({
                let slot = offset as int / (SUBPIECE_LEN as int);
                if slot < old(self).arr@.len() {
                    final(self).arr@ == old(self).arr@.update(slot, COMPLETE)
                } else {
                    final(self).arr@ == old(self).arr@
                }
            }),
            full == final(self).spec_is_full(),
    {
        let slot = (offset / SUBPIECE_LEN) as usize;
        if slot < self.arr.len() {
            self.arr.set(slot, COMPLETE);
        }
        self.is_full()
    }

    /// Counts the complete slots.
    pub fn count_complete(&self) -> (r: usize)
        ensures
            r == self.arr@.filter(|b: u8| b == COMPLETE).len(),
    {
        let mut i: usize = 0;
        let mut n: usize = 0;
        proof {
            assert(self.arr@.take(0int).filter(|b: u8| b == COMPLETE) =~= Seq::<u8>::empty());
        }
        while i < self.arr.len()
            invariant
                i <= self.arr@.len(),
                n == self.arr@.take(i as int).filter(|b: u8| b == COMPLETE).len(),
                n <= i,
            decreases self.arr@.len() - i,
        {
            proof {
                assert(self.arr@.take(i + 1int).drop_last() =~= self.arr@.take(i as int));
                reveal_with_fuel(Seq::filter, 2);
            }
            if self.arr[i] == COMPLETE {
                n += 1;
            }
            i += 1;
        }
        proof {
            assert(self.arr@.take(self.arr@.len() as int) =~= self.arr@);
        }
        n
    }
}

} // verus!
