//! The failures that the marble game reports.

use vstd::prelude::*;

verus! {

/// What can go wrong in the marble game.
#[derive(Clone, Copy, Debug, PartialEq, Eq, Structural)]
pub enum GameError {
    /// A marble was to be taken from a ring that holds none.
    EmptySequence,
    /// A line of text does not describe a game.
    MalformedInput,
    /// A game needs at least one player.
    InvalidPlayerCount,
}

} // verus!
