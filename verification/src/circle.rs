//! The ring of marbles: its mathematical model and the arithmetic that
//! turns a cursor and a signed offset into a position on the ring.

use vstd::prelude::*;
use vstd::arithmetic::div_mod::{
    lemma_fundamental_div_mod, lemma_fundamental_div_mod_converse_mod, lemma_mod_bound,
};
use crate::error::GameError;

verus! {

/// The place reached from `cursor` by moving `offset` places round a ring of
/// `length` places. The remainder is the mathematical one: never negative.
pub open spec fn wrapped_position(cursor: int, offset: int, length: int) -> int {
    (cursor + offset) % length
}

/// Computes `(cursor + offset) mod length` with a result in `[0, length)`,
/// whatever the sign of `offset` and however far it reaches.
pub fn normalize(cursor: usize, offset: i64, length: usize) -> (position: usize)
    requires
        length >= 1,
    ensures
        position == wrapped_position(cursor as int, offset as int, length as int),
        position < length,
{
    let base: usize = cursor % length;
    let ghost n: int = length as int;
    // `shift` is `offset` brought into `[0, length)` by adding `turns` whole
    // rounds of the ring.
    let ghost turns: int;
    let shift: usize = if offset >= 0 {
        proof {
            turns = -((offset as int) / n);
            lemma_fundamental_div_mod(offset as int, n);
        }
        ((offset as u64) % (length as u64)) as usize
    } else {
        let distance: u64 = (-(offset + 1)) as u64 + 1;
        let back: u64 = distance % (length as u64);
        proof {
            lemma_fundamental_div_mod(distance as int, n);
        }
        if back == 0 {
            proof {
                turns = (distance as int) / n;
            }
            0
        } else {
            proof {
                turns = (distance as int) / n + 1;
            }
            length - (back as usize)
        }
    };
    assert(shift == offset + n * turns) by (nonlinear_arith)
        requires
            n >= 1,
            offset >= 0 ==> turns == -((offset as int) / n) && offset == n * ((offset as int) / n)
                + shift,
            offset < 0 ==> {
                let d = -(offset as int);
                &&& d == n * (d / n) + d % n
                &&& (d % n == 0 ==> shift == 0 && turns == d / n)
                &&& (d % n != 0 ==> shift == n - d % n && turns == d / n + 1)
            },
    ;
    // `base + shift` is less than twice `length`: at most one round comes off.
    let room: usize = length - base;
    let position: usize = if shift >= room {
        shift - room
    } else {
        base + shift
    };
    proof {
        let rounds: int = (cursor as int) / n;
        let laps: int = if shift >= room { 1 } else { 0 };
        let q: int = rounds - turns + laps;
        lemma_fundamental_div_mod(cursor as int, n);
        assert(q * n == n * rounds - n * turns + n * laps) by (nonlinear_arith)
            requires
                q == rounds - turns + laps,
        ;
        assert(position == base + shift - n * laps) by (nonlinear_arith)
            requires
                laps == 0 || laps == 1,
                laps == 1 ==> position == base + shift - n,
                laps == 0 ==> position == base + shift,
        ;
        lemma_fundamental_div_mod_converse_mod(cursor + offset, n, q, position as int);
    }
    position
}

/// One step further round a ring of `length` places leads to the next place,
/// and from the last place to place 0.
pub proof fn lemma_wrapped_step(position: int, length: int)
    requires
        length > 0,
    ensures
        (position + 1) % length == if position % length + 1 == length {
            0
        } else {
            position % length + 1
        },
{
    let q = position / length;
    let r = position % length;
    lemma_fundamental_div_mod(position, length);
    lemma_mod_bound(position, length);
    if r + 1 == length {
        assert(position + 1 == (q + 1) * length + 0) by (nonlinear_arith)
            requires
                position == length * q + r,
                r + 1 == length,
        ;
        lemma_fundamental_div_mod_converse_mod(position + 1, length, q + 1, 0);
    } else {
        assert(position + 1 == q * length + (r + 1)) by (nonlinear_arith)
            requires
                position == length * q + r,
        ;
        lemma_fundamental_div_mod_converse_mod(position + 1, length, q, r + 1);
    }
}

/// A ring of marbles as mathematics: the marbles in their order round the
/// ring, read from an arbitrary but fixed first place, and the place of the
/// current marble.
pub struct Ring {
    pub marbles: Seq<u32>,
    pub cursor: int,
}

impl Ring {
    /// The cursor names a marble whenever there is one, and is 0 otherwise.
    pub open spec fn wf(self) -> bool {
        if self.marbles.len() == 0 {
            self.cursor == 0
        } else {
            0 <= self.cursor < self.marbles.len()
        }
    }

    /// The ring that holds no marble.
    pub open spec fn empty() -> Ring {
        Ring { marbles: Seq::empty(), cursor: 0 }
    }

    /// The place `offset` steps from the cursor, clockwise if positive.
    pub open spec fn position(self, offset: int) -> int {
        wrapped_position(self.cursor, offset, self.marbles.len() as int)
    }

    /// The ring after `value` is put in at `offset` from the cursor. The new
    /// marble takes the place computed, the marbles from there on move up by
    /// one, and the cursor rests on the new marble. In an empty ring the new
    /// marble is the only one.
    pub open spec fn insert(self, offset: int, value: u32) -> Ring {
        if self.marbles.len() == 0 {
            Ring { marbles: seq![value], cursor: 0 }
        } else {
            Ring {
                marbles: self.marbles.insert(self.position(offset), value),
                cursor: self.position(offset),
            }
        }
    }

    /// The marble at `offset` from the cursor.
    pub open spec fn target(self, offset: int) -> u32 {
        self.marbles[self.position(offset)]
    }

    /// The ring after the marble at `offset` from the cursor is taken out.
    /// The cursor rests on the marble that followed it; where the last place
    /// was emptied, that is the marble in place 0.
    pub open spec fn remove(self, offset: int) -> Ring {
        Ring {
            marbles: self.marbles.remove(self.position(offset)),
            cursor: if self.position(offset) + 1 < self.marbles.len() {
                self.position(offset)
            } else {
                0
            },
        }
    }

    /// The marbles read once round the ring, starting at the current one.
    pub open spec fn clockwise(self) -> Seq<u32> {
        self.marbles.subrange(self.cursor, self.marbles.len() as int) + self.marbles.subrange(
            0,
            self.cursor,
        )
    }
}

/// In a ring that holds a marble, every offset leads to a marble.
pub proof fn lemma_position_in_range(ring: Ring, offset: int)
    requires
        ring.marbles.len() > 0,
    ensures
        0 <= ring.position(offset) < ring.marbles.len(),
{
    lemma_mod_bound(ring.cursor + offset, ring.marbles.len() as int);
}

/// Putting a marble in keeps the ring well formed, makes it one longer, keeps
/// every other marble in its order, and leaves the cursor on the new marble.
pub proof fn lemma_insert(ring: Ring, offset: int, value: u32)
    requires
        ring.wf(),
    ensures
        ring.insert(offset, value).wf(),
        ring.insert(offset, value).marbles.len() == ring.marbles.len() + 1,
        ring.insert(offset, value).marbles[ring.insert(offset, value).cursor] == value,
        ring.insert(offset, value).marbles.remove(ring.insert(offset, value).cursor)
            == ring.marbles,
{
    let after = ring.insert(offset, value);
    if ring.marbles.len() > 0 {
        lemma_position_in_range(ring, offset);
    }
    assert(after.marbles.remove(after.cursor) =~= ring.marbles);
}

/// Taking a marble out keeps the ring well formed and makes it one shorter;
/// the marble taken and the marbles left make up the ring as it was.
pub proof fn lemma_remove(ring: Ring, offset: int)
    requires
        ring.wf(),
        ring.marbles.len() > 0,
    ensures
        ring.remove(offset).wf(),
        ring.remove(offset).marbles.len() == ring.marbles.len() - 1,
        ring.remove(offset).marbles.insert(ring.position(offset), ring.target(offset))
            == ring.marbles,
{
    lemma_position_in_range(ring, offset);
    assert(ring.remove(offset).marbles.insert(ring.position(offset), ring.target(offset))
        =~= ring.marbles);
}

/// A ring of marbles with a cursor, whatever holds the marbles.
pub trait CircularSequence: Sized {
    /// The ring that this value stands for.
    spec fn ring(&self) -> Ring;

    /// The representation is consistent.
    spec fn wf(&self) -> bool;

    /// A consistent representation stands for a well-formed ring.
    proof fn lemma_ring_wf(&self)
        requires
            self.wf(),
        ensures
            self.ring().wf(),
    ;

    /// A ring without marbles.
    fn new() -> (s: Self)
        ensures
            s.wf(),
            s.ring() == Ring::empty(),
    ;

    /// The number of marbles.
    fn len(&self) -> (n: usize)
        requires
            self.wf(),
        ensures
            n == self.ring().marbles.len(),
    ;

    /// The place of the current marble; 0 in an empty ring.
    fn cursor(&self) -> (c: usize)
        requires
            self.wf(),
        ensures
            c == self.ring().cursor,
    ;

    /// The marbles in ring order, from place 0.
    fn snapshot(&self) -> (v: Vec<u32>)
        requires
            self.wf(),
        ensures
            v@ == self.ring().marbles,
    ;

    /// Makes room for `additional` marbles more; the ring is as it was.
    fn reserve(&mut self, additional: usize)
        requires
            old(self).wf(),
        ensures
            final(self).wf(),
            final(self).ring() == old(self).ring(),
    ;

    /// Puts `value` in at `offset` from the cursor and moves the cursor to it.
    fn insert_at_offset(&mut self, offset: i64, value: u32)
        requires
            old(self).wf(),
        ensures
            final(self).wf(),
            final(self).ring() == old(self).ring().insert(offset as int, value),
    ;

    /// Takes out the marble at `offset` from the cursor and returns it; the
    /// cursor moves to the marble that followed. An empty ring is left as it
    /// is and reported.
    fn remove_at_offset(&mut self, offset: i64) -> (r: Result<u32, GameError>)
        requires
            old(self).wf(),
        ensures
            final(self).wf(),
            old(self).ring().marbles.len() == 0 ==> r == Err::<u32, GameError>(
                GameError::EmptySequence,
            ) && final(self).ring() == old(self).ring(),
            old(self).ring().marbles.len() > 0 ==> r == Ok::<u32, GameError>(
                old(self).ring().target(offset as int),
            ) && final(self).ring() == old(self).ring().remove(offset as int),
    ;
}

} // verus!
