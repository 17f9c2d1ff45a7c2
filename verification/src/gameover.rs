//! Terminal detection.

use vstd::prelude::*;
use crate::bitboard::spec_reach;
use crate::position::Position;

verus! {

/// The game is over when either side has no cells, the half-move clock
/// has reached 100, or no empty cell can be reached from any occupied
/// cell, so that no cell on the board can ever be filled again.
pub open spec fn spec_gameover(p: Position) -> bool {
    ||| p.black.0 == 0
    ||| p.white.0 == 0
    ||| p.halfmoves >= 100
    ||| (spec_reach(p.spec_both().0) & p.spec_empty().0) == 0
}

impl Position {
    /// Whether the game has ended.
    pub fn is_gameover(&self) -> (r: bool)
        requires
            self.wf(),
        ensures
            r == spec_gameover(*self),
    {
        self.get_black().is_empty() || self.get_white().is_empty() || self.halfmoves >= 100 || self
            .get_both().reach().and(self.get_empty()).is_empty()
    }
}

} // verus!
