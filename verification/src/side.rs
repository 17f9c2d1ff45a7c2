//! The two players of the game.

use vstd::prelude::*;

verus! {

/// A game participant.  `Black` plays the `x` pieces of the board notation,
/// `White` the `o` pieces.
#[derive(PartialEq, Eq, Copy, Clone, Debug, Structural)]
pub enum Side {
    Black,
    White,
}

impl Side {
    /// The other side.
    pub open spec fn spec_opposite(self) -> Side {
        match self {
            Side::Black => Side::White,
            Side::White => Side::Black,
        }
    }

    /// Returns the other side.
    pub fn opposite(self) -> (r: Side)
        ensures
            r == self.spec_opposite(),
    {
        match self {
            Side::Black => Side::White,
            Side::White => Side::Black,
        }
    }
}

} // verus!
