//! The ring kept in one contiguous vector: a marble goes in or out at its
//! index, and the marbles behind it are moved.

use vstd::prelude::*;
use crate::circle::{normalize, CircularSequence, Ring};
use crate::error::GameError;

verus! {

/// A ring held as a vector in ring order, with the index of the current
/// marble.
pub struct ArrayCircle {
    marbles: Vec<u32>,
    cursor: usize,
}

impl CircularSequence for ArrayCircle {
    closed spec fn ring(&self) -> Ring {
        Ring { marbles: self.marbles@, cursor: self.cursor as int }
    }

    closed spec fn wf(&self) -> bool {
        self.ring().wf()
    }

    proof fn lemma_ring_wf(&self) {
    }

    fn new() -> (s: Self) {
        ArrayCircle { marbles: Vec::new(), cursor: 0 }
    }

    fn len(&self) -> (n: usize) {
        self.marbles.len()
    }

    fn cursor(&self) -> (c: usize) {
        self.cursor
    }

    fn snapshot(&self) -> (v: Vec<u32>) {
        self.marbles.clone()
    }

    fn reserve(&mut self, additional: usize) {
        self.marbles.reserve(additional);
    }

    fn insert_at_offset(&mut self, offset: i64, value: u32) {
        let length: usize = self.marbles.len();
        if length == 0 {
            self.marbles.push(value);
            self.cursor = 0;
            assert(self.marbles@ =~= seq![value]);
        } else {
            let at: usize = normalize(self.cursor, offset, length);
            self.marbles.insert(at, value);
            self.cursor = at;
        }
    }

    fn remove_at_offset(&mut self, offset: i64) -> (r: Result<u32, GameError>) {
        let length: usize = self.marbles.len();
        if length == 0 {
            return Err(GameError::EmptySequence);
        }
        let at: usize = normalize(self.cursor, offset, length);
        let marble: u32 = self.marbles.remove(at);
        self.cursor = if at + 1 < length {
            at
        } else {
            0
        };
        Ok(marble)
    }
}

} // verus!
