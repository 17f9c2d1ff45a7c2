//! The outcome of a finished game.

use vstd::prelude::*;
use crate::bitboard::{spec_reach, popcount, lemma_count_zero};
use crate::position::Position;

verus! {

/// Who won, or a draw.
#[derive(Debug, Copy, Clone, PartialEq, Eq, Structural)]
pub enum GameResult {
    BlackWin,
    WhiteWin,
    Draw,
}

/// The decided outcome of a position, or `None` while the game runs.
///
/// In priority order: a side with no cells loses to a non-empty side;
/// two empty sides draw; a half-move clock at 100 draws; while any empty
/// cell is still reachable the game is undecided; otherwise the board is
/// locked and the side with more cells wins, equal counts drawing.  The
/// no-material rules outrank the clock rule on purpose.
pub open spec fn spec_result(p: Position) -> Option<GameResult> {
    let nb = popcount(p.black.0, 64);
    let nw = popcount(p.white.0, 64);
    let reachable = spec_reach(p.spec_both().0) & p.spec_empty().0;
    if nb > 0 && nw == 0 {
        Some(GameResult::BlackWin)
    } else if nb == 0 && nw > 0 {
        Some(GameResult::WhiteWin)
    } else if nb == 0 && nw == 0 {
        Some(GameResult::Draw)
    } else if p.halfmoves >= 100 {
        Some(GameResult::Draw)
    } else if reachable != 0 {
        None
    } else if nb > nw {
        Some(GameResult::BlackWin)
    } else if nb < nw {
        Some(GameResult::WhiteWin)
    } else {
        Some(GameResult::Draw)
    }
}

impl Position {
    /// The decided outcome, or `None` while the game runs.
    pub fn get_result(&self) -> (r: Option<GameResult>)
        requires
            self.wf(),
        ensures
            r == spec_result(*self),
    {
        let num_black = self.get_black().count();
        let num_white = self.get_white().count();
        let reachable = self.get_both().reach().and(self.get_empty());

        if num_black > 0 && num_white == 0 {
            Some(GameResult::BlackWin)
        } else if num_black == 0 && num_white > 0 {
            Some(GameResult::WhiteWin)
        } else if num_black == 0 && num_white == 0 {
            Some(GameResult::Draw)
        } else if self.halfmoves >= 100 {
            Some(GameResult::Draw)
        } else if reachable.is_occupied() {
            None
        } else if num_black > num_white {
            Some(GameResult::BlackWin)
        } else if num_black < num_white {
            Some(GameResult::WhiteWin)
        } else {
            Some(GameResult::Draw)
        }
    }
}

/// Terminal priority: a position where exactly one side still has cells
/// resolves to a win for that side, whatever the half-move clock says —
/// a no-material result is never downgraded to a clock draw.
pub proof fn lemma_no_material_beats_clock(p: Position)
    requires
        p.wf(),
    ensures
        p.black.0 != 0 && p.white.0 == 0 ==> spec_result(p) == Some(GameResult::BlackWin),
        p.black.0 == 0 && p.white.0 != 0 ==> spec_result(p) == Some(GameResult::WhiteWin),
{
    lemma_count_zero(p.black.0);
    lemma_count_zero(p.white.0);
}

} // verus!
