//! The game position: three bitboards, the side to move, and the two
//! move counters.

use vstd::prelude::*;
use crate::bitboard::{Bitboard, FULL_BOARD, spec_reach, popcount, lemma_popcount_board,
    lemma_popcount_le};
use crate::side::Side;
use crate::piece::Piece;
use crate::moves::Move;
use crate::makemove::spec_make;
use crate::movegen::{spec_moves, drop_targets, jump_targets, spec_places, spec_jumps,
    spec_jumps_from, lemma_places_len, lemma_jumps_from_len};
use crate::gameover::spec_gameover;

verus! {

/// A snapshot of the game.  The three bitboards are pairwise disjoint on a
/// valid position; `halfmoves` counts moves since the last placement and
/// `fullmoves` increments after each of White's moves.
#[derive(Copy, Clone, PartialEq, Eq, Debug, Structural)]
pub struct Position {
    pub black: Bitboard,
    pub white: Bitboard,
    pub walls: Bitboard,
    pub turn: Side,
    pub halfmoves: u32,
    pub fullmoves: u32,
}

impl Position {
    /// The three bitboards are pairwise disjoint.
    pub open spec fn spec_valid(self) -> bool {
        &&& self.black.0 & self.white.0 == 0
        &&& self.black.0 & self.walls.0 == 0
        &&& self.white.0 & self.walls.0 == 0
    }

    /// The standing invariant: all three bitboards lie in the 49-bit
    /// board space and are pairwise disjoint.
    pub open spec fn wf(self) -> bool {
        &&& self.black.wf()
        &&& self.white.wf()
        &&& self.walls.wf()
        &&& self.spec_valid()
    }

    /// The occupancy of the side to move.
    pub open spec fn spec_us(self) -> Bitboard {
        match self.turn {
            Side::Black => self.black,
            Side::White => self.white,
        }
    }

    /// The occupancy of the opponent.
    pub open spec fn spec_them(self) -> Bitboard {
        match self.turn {
            Side::Black => self.white,
            Side::White => self.black,
        }
    }

    /// The combined occupancy of both sides.
    pub open spec fn spec_both(self) -> Bitboard {
        Bitboard(self.black.0 | self.white.0)
    }

    /// The empty cells: all cells not occupied and not walled.
    pub open spec fn spec_empty(self) -> Bitboard {
        Bitboard(!(self.black.0 | self.white.0 | self.walls.0) & FULL_BOARD)
    }

    /// The successor of this position under a move.
    pub fn after_move(&self, mv: &Move) -> (r: Self)
        requires
            self.halfmoves < 0xFFFF_FFFFu32,
            self.fullmoves < 0xFFFF_FFFFu32,
            mv.wf(),
        ensures
            r == spec_make(*self, *mv),
    {
        let mut npos = *self;
        npos.makemove(mv);
        npos
    }

    /// The successor of this position under a pass.
    pub fn after_pass(&self) -> (r: Self)
        requires
            self.halfmoves < 0xFFFF_FFFFu32,
            self.fullmoves < 0xFFFF_FFFFu32,
        ensures
            r == spec_make(*self, Move::Pass),
    {
        let mut npos = *self;
        npos.makemove(&Move::Pass);
        npos
    }

    /// Black's occupancy.
    pub fn get_black(&self) -> (r: Bitboard)
        ensures
            r == self.black,
    {
        self.black
    }

    /// White's occupancy.
    pub fn get_white(&self) -> (r: Bitboard)
        ensures
            r == self.white,
    {
        self.white
    }

    /// The walled cells.
    pub fn get_walls(&self) -> (r: Bitboard)
        ensures
            r == self.walls,
    {
        self.walls
    }

    /// The board of the given cell kind.
    pub fn get_piece(&self, piece: Piece) -> (r: Bitboard)
        ensures
            r == match piece {
                Piece::Black => self.black,
                Piece::White => self.white,
                Piece::Wall => self.walls,
            },
    {
        match piece {
            Piece::Black => self.black,
            Piece::White => self.white,
            Piece::Wall => self.walls,
        }
    }

    /// The combined occupancy of both sides.
    pub fn get_both(&self) -> (r: Bitboard)
        ensures
            r == self.spec_both(),
            self.wf() ==> r.wf(),
    {
        self.get_black().or(self.get_white())
    }

    /// The empty cells.
    pub fn get_empty(&self) -> (r: Bitboard)
        ensures
            r == self.spec_empty(),
            r.wf(),
    {
        self.get_black().or(self.get_white()).or(self.get_walls()).flip()
    }

    /// The occupancy of the side to move.
    pub fn get_us(&self) -> (r: Bitboard)
        ensures
            r == self.spec_us(),
    {
        match self.turn {
            Side::Black => self.get_black(),
            Side::White => self.get_white(),
        }
    }

    /// The occupancy of the opponent.
    pub fn get_them(&self) -> (r: Bitboard)
        ensures
            r == self.spec_them(),
    {
        match self.turn {
            Side::Black => self.get_white(),
            Side::White => self.get_black(),
        }
    }

    /// A pass is legal exactly when the game is not over and no placement
    /// or jump exists; any other move is legal exactly when the move
    /// generator emits it.
    pub open spec fn spec_is_legal(self, mv: Move) -> bool {
        match mv {
            Move::Pass => self.spec_can_pass(),
            _ => spec_moves(self).contains(mv),
        }
    }

    /// Whether the given move may be played here.
    pub fn is_legal_move(&self, mv: &Move) -> (r: bool)
        requires
            self.wf(),
        ensures
            r == self.spec_is_legal(*mv),
    {
        match mv {
            Move::Pass => self.can_pass(),
            _ => {
                let moves = self.pseudolegal_moves();
                let mut k: usize = 0;
                while k < moves.len()
                    invariant
                        k <= moves.len(),
                        moves@ == spec_moves(*self),
                        forall|j: int| 0 <= j < k ==> moves@[j] != *mv,
                        !(*mv is Pass),
                    decreases moves.len() - k,
                {
                    if moves[k] == *mv {
                        return true;
                    }
                    k = k + 1;
                }
                proof {
                    if spec_moves(*self).contains(*mv) {
                        let j = choose|j: int|
                            0 <= j < spec_moves(*self).len() && spec_moves(*self)[j] == *mv;
                        assert(moves@[j] == *mv);
                    }
                }
                false
            },
        }
    }

    /// The number of placements and jumps available, or 1 if none exist
    /// (standing for the forced pass).
    pub open spec fn spec_count_pseudo(self) -> nat {
        if spec_moves(self).len() == 0 {
            1
        } else {
            spec_moves(self).len()
        }
    }

    /// Counts the available placements and jumps without building them;
    /// a position with none reports 1, standing for the forced pass.
    pub fn count_pseudomoves(&self) -> (r: u64)
        requires
            self.wf(),
        ensures
            r == self.spec_count_pseudo(),
    {
        let ghost p = *self;
        let empty_bb = self.get_empty();
        let us = self.get_us();
        let targets = us.singles().and(empty_bb);
        proof {
            assert(targets.0 == drop_targets(p));
            lemma_popcount_board(targets.0);
            lemma_places_len(p, 49);
            lemma_popcount_le(targets.0, 49);
        }
        let mut nodes: u64 = targets.count() as u64;

        let mut from: u8 = 0;
        while from < 49
            invariant
                p == *self,
                p.wf(),
                from <= 49,
                us == p.spec_us(),
                empty_bb == p.spec_empty(),
                nodes == spec_places(p, 49).len() + spec_jumps(p, from as int).len(),
                nodes <= 49 + 49 * (from as int),
            decreases 49 - from,
        {
            if us.is_set(from) {
                let jt = Bitboard::from_index(from).doubles().and(empty_bb);
                proof {
                    assert(jt.0 == jump_targets(p, from as int));
                    lemma_popcount_board(jt.0);
                    lemma_jumps_from_len(p, from as int, 49);
                    lemma_popcount_le(jt.0, 49);
                    assert(spec_jumps(p, from as int + 1) == spec_jumps(p, from as int)
                        + spec_jumps_from(p, from as int, 49));
                }
                nodes = nodes + targets_count(jt);
            } else {
                proof {
                    assert(spec_jumps(p, from as int + 1) =~= spec_jumps(p, from as int));
                }
            }
            from = from + 1;
        }

        if nodes == 0 {
            proof {
                assert(spec_moves(p).len() == 0);
            }
            nodes = 1;
        } else {
            proof {
                assert(spec_moves(p).len() == nodes);
            }
        }
        nodes
    }

    /// The number of legal moves: zero once the game is over, else the
    /// pseudo-legal count.
    pub fn count_moves(&self) -> (r: u64)
        requires
            self.wf(),
        ensures
            r == if spec_gameover(*self) {
                0nat
            } else {
                self.spec_count_pseudo()
            },
    {
        if self.is_gameover() {
            return 0;
        }
        self.count_pseudomoves()
    }

    /// Passing is allowed exactly when the game is not over and the side
    /// to move can reach no empty cell.
    pub open spec fn spec_can_pass(self) -> bool {
        !spec_gameover(self) && (spec_reach(self.spec_us().0) & self.spec_empty().0) == 0
    }

    /// Whether the side to move must pass.
    pub fn can_pass(&self) -> (r: bool)
        requires
            self.wf(),
        ensures
            r == self.spec_can_pass(),
    {
        if self.is_gameover() {
            return false;
        }
        self.get_us().reach().and(self.get_empty()).is_empty()
    }

    /// Whether the three bitboards are pairwise disjoint.
    pub fn is_valid(&self) -> (r: bool)
        ensures
            r == self.spec_valid(),
    {
        if self.black.0 & self.white.0 != 0 {
            return false;
        }
        if self.black.0 & self.walls.0 != 0 {
            return false;
        }
        if self.white.0 & self.walls.0 != 0 {
            return false;
        }
        true
    }
}

/// Counts a well-formed target board, as a word-sized number.
fn targets_count(jt: Bitboard) -> (r: u64)
    requires
        jt.wf(),
    ensures
        r == popcount(jt.0, 49),
        r <= 49,
{
    proof {
        lemma_popcount_board(jt.0);
        lemma_popcount_le(jt.0, 49);
    }
    jt.count() as u64
}

} // verus!
