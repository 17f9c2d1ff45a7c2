//! Applying a move to a position.

use vstd::prelude::*;
use crate::bitboard::{Bitboard, FULL_BOARD, has_bit, spec_singles, king_dist, lemma_bitop_bits,
    lemma_bitop_wf, lemma_disjoint_bits, lemma_singleton_singles, lemma_singleton_wf};
use crate::position::Position;
use crate::side::Side;
use crate::moves::Move;
use crate::squares::Square;

verus! {

/// The opponent cells captured by landing on cell `to`: every opponent
/// cell at king-step distance one from `to` converts to the mover.
pub open spec fn spec_captured(p: Position, to: int) -> u64 {
    spec_singles(1u64 << (to as u64)) & p.spec_them().0
}

/// The successor position of `p` under a move.
///
/// A pass changes no board and increments the half-move clock.  A
/// placement adds the destination and the captured cells to the mover and
/// removes the captures from the opponent, resetting the half-move clock.
/// A jump does the same but also removes the source cell, and increments
/// the half-move clock instead of resetting it.  In every case the side
/// to move flips and the full-move counter increments after White's move.
pub open spec fn spec_make(p: Position, mv: Move) -> Position {
    match mv {
        Move::Pass => Position {
            black: p.black,
            white: p.white,
            walls: p.walls,
            turn: p.turn.spec_opposite(),
            halfmoves: (p.halfmoves + 1) as u32,
            fullmoves: if p.turn is White {
                (p.fullmoves + 1) as u32
            } else {
                p.fullmoves
            },
        },
        Move::Drop(sq) => {
            let to_bb = 1u64 << (sq.0 as u64);
            let cap = spec_captured(p, sq.0 as int);
            let us = p.spec_us().0 ^ (to_bb | cap);
            let them = p.spec_them().0 ^ cap;
            Position {
                black: if p.turn is Black {
                    Bitboard(us)
                } else {
                    Bitboard(them)
                },
                white: if p.turn is Black {
                    Bitboard(them)
                } else {
                    Bitboard(us)
                },
                walls: p.walls,
                turn: p.turn.spec_opposite(),
                halfmoves: 0,
                fullmoves: if p.turn is White {
                    (p.fullmoves + 1) as u32
                } else {
                    p.fullmoves
                },
            }
        },
        Move::Jump(fr, to) => {
            let to_bb = 1u64 << (to.0 as u64);
            let from_bb = 1u64 << (fr.0 as u64);
            let cap = spec_captured(p, to.0 as int);
            let us = p.spec_us().0 ^ (to_bb | from_bb | cap);
            let them = p.spec_them().0 ^ cap;
            Position {
                black: if p.turn is Black {
                    Bitboard(us)
                } else {
                    Bitboard(them)
                },
                white: if p.turn is Black {
                    Bitboard(them)
                } else {
                    Bitboard(us)
                },
                walls: p.walls,
                turn: p.turn.spec_opposite(),
                halfmoves: (p.halfmoves + 1) as u32,
                fullmoves: if p.turn is White {
                    (p.fullmoves + 1) as u32
                } else {
                    p.fullmoves
                },
            }
        },
    }
}

impl Position {
    /// Applies the move in place, producing `spec_make` of the old value.
    pub fn makemove(&mut self, mv: &Move)
        requires
            old(self).halfmoves < 0xFFFF_FFFFu32,
            old(self).fullmoves < 0xFFFF_FFFFu32,
            mv.wf(),
        ensures
            *final(self) == spec_make(*old(self), *mv),
    {
        match mv {
            Move::Pass => {
                self.halfmoves = self.halfmoves + 1;
                if matches!(self.turn, Side::White) {
                    self.fullmoves = self.fullmoves + 1;
                }
                self.turn = self.turn.opposite();
            },
            Move::Drop(sq) => {
                let to_bb = Bitboard::from_square(*sq);
                let captured = to_bb.singles().and(self.get_them());
                let nus = self.get_us().xor(to_bb.or(captured));
                let nthem = self.get_them().xor(captured);
                match self.turn {
                    Side::Black => {
                        self.black = nus;
                        self.white = nthem;
                    },
                    Side::White => {
                        self.white = nus;
                        self.black = nthem;
                    },
                }
                self.halfmoves = 0;
                if matches!(self.turn, Side::White) {
                    self.fullmoves = self.fullmoves + 1;
                }
                self.turn = self.turn.opposite();
            },
            Move::Jump(fr, to) => {
                let to_bb = Bitboard::from_square(*to);
                let from_bb = Bitboard::from_square(*fr);
                let captured = to_bb.singles().and(self.get_them());
                let nus = self.get_us().xor(to_bb.or(from_bb).or(captured));
                let nthem = self.get_them().xor(captured);
                match self.turn {
                    Side::Black => {
                        self.black = nus;
                        self.white = nthem;
                    },
                    Side::White => {
                        self.white = nus;
                        self.black = nthem;
                    },
                }
                self.halfmoves = self.halfmoves + 1;
                if matches!(self.turn, Side::White) {
                    self.fullmoves = self.fullmoves + 1;
                }
                self.turn = self.turn.opposite();
            },
        }
    }
}


/// Board-level effect of landing on the empty cell `to`: the mover's
/// board `us` gains `to` and every cell of `them` adjacent to `to`;
/// `them` loses exactly those cells.  `lose` is additionally removed from
/// the mover (the source of a jump; pass 1 << to itself for a placement,
/// which is already accounted for).
proof fn lemma_land_update(us: u64, them: u64, walls: u64, to: int, fr: int)
    requires
        us <= FULL_BOARD,
        them <= FULL_BOARD,
        walls <= FULL_BOARD,
        us & them == 0,
        us & walls == 0,
        them & walls == 0,
        0 <= to < 49,
        !has_bit(us, to),
        !has_bit(them, to),
        !has_bit(walls, to),
        0 <= fr < 49,
        fr == to || has_bit(us, fr),
    ensures
        ({
            let tb = 1u64 << (to as u64);
            let fb = 1u64 << (fr as u64);
            let cap = spec_singles(tb) & them;
            let nus = us ^ (tb | fb | cap);
            let nthem = them ^ cap;
            &&& (fr == to ==> forall|i: int| #[trigger]
                has_bit(us ^ (tb | cap), i) <==> (has_bit(us, i) || i == to || (has_bit(them, i)
                    && king_dist(to, i) == 1)))
            &&& (fr != to ==> forall|i: int| #[trigger]
                has_bit(nus, i) <==> ((has_bit(us, i) && i != fr) || i == to || (has_bit(them, i)
                    && king_dist(to, i) == 1)))
            &&& (forall|i: int| #[trigger]
                has_bit(nthem, i) <==> (has_bit(them, i) && king_dist(to, i) != 1))
            &&& us ^ (tb | cap) <= FULL_BOARD
            &&& nus <= FULL_BOARD
            &&& nthem <= FULL_BOARD
            &&& (us ^ (tb | cap)) & nthem == 0
            &&& (us ^ (tb | cap)) & walls == 0
            &&& nus & nthem == 0
            &&& nus & walls == 0
            &&& nthem & walls == 0
            &&& nthem & (us ^ (tb | cap)) == 0
            &&& nthem & nus == 0
        }),
{
    let tb = 1u64 << (to as u64);
    let fb = 1u64 << (fr as u64);
    let cap = spec_singles(tb) & them;
    let nus0 = us ^ (tb | cap);
    let nus = us ^ (tb | fb | cap);
    let nthem = them ^ cap;

    lemma_singleton_wf(to);
    lemma_singleton_wf(fr);
    crate::bitboard::lemma_singles_wf(tb);
    lemma_bitop_wf(spec_singles(tb), them);
    lemma_bitop_wf(tb, cap);
    lemma_bitop_wf(tb, fb);
    lemma_bitop_wf(tb | fb, cap);
    lemma_bitop_wf(us, tb | cap);
    lemma_bitop_wf(us, tb | fb | cap);
    lemma_bitop_wf(them, cap);

    lemma_disjoint_bits(us, them);
    lemma_disjoint_bits(us, walls);
    lemma_disjoint_bits(them, walls);

    assert forall|i: int| #[trigger] has_bit(nus0, i) <==> (has_bit(us, i) || i == to || (has_bit(
        them,
        i,
    ) && king_dist(to, i) == 1)) by {
        if 0 <= i < 49 {
            lemma_bitop_bits(us, tb | cap, i as u64);
            lemma_bitop_bits(tb, cap, i as u64);
            lemma_bitop_bits(spec_singles(tb), them, i as u64);
            lemma_singleton_singles(to, i);
            assert(has_bit(tb, i) <==> i == to);
            assert(!(has_bit(us, i) && has_bit(them, i)));
        }
    }
    if fr == to {
        lemma_bitop_wf(tb, tb);
        assert(tb | fb == tb);
        assert(nus == nus0);
    }
    if fr != to {
        assert forall|i: int| #[trigger] has_bit(nus, i) <==> ((has_bit(us, i) && i != fr) || i
            == to || (has_bit(them, i) && king_dist(to, i) == 1)) by {
            if 0 <= i < 49 {
                lemma_bitop_bits(us, tb | fb | cap, i as u64);
                lemma_bitop_bits(tb, fb, i as u64);
                lemma_bitop_bits(tb | fb, cap, i as u64);
                lemma_bitop_bits(spec_singles(tb), them, i as u64);
                lemma_singleton_singles(to, i);
                assert(has_bit(tb, i) <==> i == to);
                assert(has_bit(fb, i) <==> i == fr);
                assert(!(has_bit(us, i) && has_bit(them, i)));
                if i == fr {
                    assert(!(has_bit(them, i) && king_dist(to, i) == 1));
                }
            }
        }
    }
    assert forall|i: int| #[trigger] has_bit(nthem, i) <==> (has_bit(them, i) && king_dist(to, i)
        != 1) by {
        if 0 <= i < 49 {
            lemma_bitop_bits(them, cap, i as u64);
            lemma_bitop_bits(spec_singles(tb), them, i as u64);
            lemma_singleton_singles(to, i);
        }
    }

    lemma_disjoint_bits(nus0, nthem);
    lemma_disjoint_bits(nus0, walls);
    lemma_disjoint_bits(nus, nthem);
    lemma_disjoint_bits(nus, walls);
    lemma_disjoint_bits(nthem, walls);
    assert forall|i: int| !(has_bit(nus0, i) && #[trigger] has_bit(nthem, i)) by {
        assert(!(has_bit(us, i) && has_bit(them, i)));
    }
    assert forall|i: int| !(has_bit(nus, i) && #[trigger] has_bit(nthem, i)) by {
        assert(!(has_bit(us, i) && has_bit(them, i)));
    }
    assert forall|i: int| !(has_bit(nus0, i) && #[trigger] has_bit(walls, i)) by {
        assert(!(has_bit(us, i) && has_bit(walls, i)));
        assert(!(has_bit(them, i) && has_bit(walls, i)));
    }
    assert forall|i: int| !(has_bit(nus, i) && #[trigger] has_bit(walls, i)) by {
        assert(!(has_bit(us, i) && has_bit(walls, i)));
        assert(!(has_bit(them, i) && has_bit(walls, i)));
    }
    assert forall|i: int| !(has_bit(nthem, i) && #[trigger] has_bit(walls, i)) by {
        assert(!(has_bit(them, i) && has_bit(walls, i)));
    }
    lemma_bitop_wf(nus0, nthem);
    lemma_bitop_wf(nus, nthem);
}

/// Capture correctness for a placement on an empty cell `sq`: the mover
/// gains exactly `sq` plus every opponent cell adjacent to `sq`, and the
/// opponent loses exactly those adjacent cells; the successor position is
/// well-formed.
pub proof fn lemma_make_drop_bits(p: Position, sq: Square)
    requires
        p.wf(),
        sq.wf(),
        has_bit(p.spec_empty().0, sq.0 as int),
    ensures
        ({
            let q = spec_make(p, Move::Drop(sq));
            let mover = if p.turn is Black {
                q.black
            } else {
                q.white
            };
            let opp = if p.turn is Black {
                q.white
            } else {
                q.black
            };
            &&& q.walls == p.walls
            &&& forall|i: int| #[trigger]
                mover.has(i) <==> (p.spec_us().has(i) || i == sq.0 as int || (p.spec_them().has(i)
                    && king_dist(sq.0 as int, i) == 1))
            &&& forall|i: int| #[trigger]
                opp.has(i) <==> (p.spec_them().has(i) && king_dist(sq.0 as int, i) != 1)
            &&& q.wf()
        }),
{
    let to = sq.0 as int;
    let tb = 1u64 << (sq.0 as u64);
    let us = p.spec_us().0;
    let them = p.spec_them().0;
    let cap = spec_captured(p, to);
    let q = spec_make(p, Move::Drop(sq));
    let mover = if p.turn is Black { q.black } else { q.white };
    let opp = if p.turn is Black { q.white } else { q.black };
    lemma_empty_parts(p, to);
    match p.turn {
        Side::Black => {
            lemma_land_update(p.black.0, p.white.0, p.walls.0, to, to);
        },
        Side::White => {
            lemma_bitop_wf(p.black.0, p.white.0);
            lemma_bitop_wf(p.black.0, p.walls.0);
            lemma_land_update(p.white.0, p.black.0, p.walls.0, to, to);
        },
    }
    assert(mover.0 == us ^ (tb | cap));
    assert(opp.0 == them ^ cap);
    assert forall|i: int| #[trigger] mover.has(i) <==> (p.spec_us().has(i) || i == to || (
    p.spec_them().has(i) && king_dist(to, i) == 1)) by {
        assert(has_bit(us ^ (tb | cap), i) <==> (has_bit(us, i) || i == to || (has_bit(them, i)
            && king_dist(to, i) == 1)));
    }
    assert forall|i: int| #[trigger] opp.has(i) <==> (p.spec_them().has(i) && king_dist(to, i)
        != 1) by {
        assert(has_bit(them ^ cap, i) <==> (has_bit(them, i) && king_dist(to, i) != 1));
    }
    assert(q.wf());
}

/// Capture correctness for a jump from `fr` to the empty cell `to`: the
/// mover loses `fr` and gains exactly `to` plus every opponent cell
/// adjacent to `to`; the opponent loses exactly those adjacent cells; the
/// successor position is well-formed.
pub proof fn lemma_make_jump_bits(p: Position, fr: Square, to: Square)
    requires
        p.wf(),
        fr.wf(),
        to.wf(),
        p.spec_us().has(fr.0 as int),
        has_bit(p.spec_empty().0, to.0 as int),
    ensures
        ({
            let q = spec_make(p, Move::Jump(fr, to));
            let mover = if p.turn is Black {
                q.black
            } else {
                q.white
            };
            let opp = if p.turn is Black {
                q.white
            } else {
                q.black
            };
            &&& q.walls == p.walls
            &&& forall|i: int| #[trigger]
                mover.has(i) <==> ((p.spec_us().has(i) && i != fr.0 as int) || i == to.0 as int || (
                p.spec_them().has(i) && king_dist(to.0 as int, i) == 1))
            &&& forall|i: int| #[trigger]
                opp.has(i) <==> (p.spec_them().has(i) && king_dist(to.0 as int, i) != 1)
            &&& q.wf()
        }),
{
    let t = to.0 as int;
    let f = fr.0 as int;
    let tb = 1u64 << (to.0 as u64);
    let fb = 1u64 << (fr.0 as u64);
    let us = p.spec_us().0;
    let them = p.spec_them().0;
    let cap = spec_captured(p, t);
    let q = spec_make(p, Move::Jump(fr, to));
    let mover = if p.turn is Black { q.black } else { q.white };
    let opp = if p.turn is Black { q.white } else { q.black };
    lemma_empty_parts(p, t);
    assert(f != t);
    match p.turn {
        Side::Black => {
            lemma_land_update(p.black.0, p.white.0, p.walls.0, t, f);
        },
        Side::White => {
            lemma_bitop_wf(p.black.0, p.white.0);
            lemma_bitop_wf(p.black.0, p.walls.0);
            lemma_land_update(p.white.0, p.black.0, p.walls.0, t, f);
        },
    }
    assert(mover.0 == us ^ (tb | fb | cap));
    assert(opp.0 == them ^ cap);
    assert forall|i: int| #[trigger] mover.has(i) <==> ((p.spec_us().has(i) && i != f) || i == t
        || (p.spec_them().has(i) && king_dist(t, i) == 1)) by {
        assert(has_bit(us ^ (tb | fb | cap), i) <==> ((has_bit(us, i) && i != f) || i == t || (
        has_bit(them, i) && king_dist(t, i) == 1)));
    }
    assert forall|i: int| #[trigger] opp.has(i) <==> (p.spec_them().has(i) && king_dist(t, i)
        != 1) by {
        assert(has_bit(them ^ cap, i) <==> (has_bit(them, i) && king_dist(t, i) != 1));
    }
    assert(q.wf());
}

/// A cell of the empty board is on neither side's board nor a wall, and
/// conversely.
pub proof fn lemma_empty_parts(p: Position, i: int)
    requires
        p.wf(),
        0 <= i < 49,
    ensures
        has_bit(p.spec_empty().0, i) <==> (!has_bit(p.black.0, i) && !has_bit(p.white.0, i)
            && !has_bit(p.walls.0, i)),
{
    lemma_bitop_bits(p.black.0, p.white.0, i as u64);
    lemma_bitop_bits(p.black.0 | p.white.0, p.walls.0, i as u64);
    lemma_bitop_bits(p.black.0 | p.white.0 | p.walls.0, p.black.0, i as u64);
    assert(has_bit(p.spec_empty().0, i) <==> !has_bit(p.black.0 | p.white.0 | p.walls.0, i)) by {
        lemma_not_board_bits(p.black.0 | p.white.0 | p.walls.0, i);
    }
}

/// A cell of the complement-within-board of `x`.
proof fn lemma_not_board_bits(x: u64, i: int)
    requires
        0 <= i < 49,
    ensures
        has_bit(!x & FULL_BOARD, i) <==> !has_bit(x, i),
{
    lemma_bitop_bits(x, x, i as u64);
}

/// The half-move clock after each kind of move: a placement resets it to
/// zero, a jump increments it, a pass increments it.
pub proof fn lemma_halfmove_clock(p: Position, mv: Move)
    requires
        p.halfmoves < 0xFFFF_FFFFu32,
    ensures
        mv is Drop ==> spec_make(p, mv).halfmoves == 0,
        mv is Jump ==> spec_make(p, mv).halfmoves == p.halfmoves + 1,
        mv is Pass ==> spec_make(p, mv).halfmoves == p.halfmoves + 1,
{
}

} // verus!
