//! Exhaustive move-tree node counting, the correctness oracle for the
//! move generator.

use vstd::prelude::*;
use crate::bitboard::{has_bit, spec_reach, spec_singles, king_dist, lemma_bitop_bits,
    lemma_bitop_wf, lemma_singles_wf, lemma_doubles_wf, lemma_singleton_doubles, lemma_count_zero,
    lemma_disjoint_bits, FULL_BOARD};
use crate::position::Position;
use crate::moves::Move;
use crate::makemove::{spec_make, lemma_make_drop_bits, lemma_make_jump_bits};
use crate::movegen::{spec_moves, spec_jumps, spec_jumps_from, drop_targets, jump_targets,
    spec_move_ok, lemma_moves_ok, lemma_places_len, lemma_jumps_from_len};
use crate::gameover::spec_gameover;

verus! {

/// The number of leaves of the move tree expanded to `depth`.
///
/// Depth 0 counts the position itself.  A finished game has no
/// continuation.  A position without placements or jumps has exactly one
/// continuation, the pass; otherwise the count is the sum over every
/// pseudo-legal move's successor.
pub open spec fn spec_perft(p: Position, depth: nat) -> nat
    decreases depth, 0int, 0int,
{
    if depth == 0 {
        1
    } else if spec_gameover(p) {
        0
    } else if spec_moves(p).len() == 0 {
        spec_perft(spec_make(p, Move::Pass), (depth - 1) as nat)
    } else {
        spec_perft_sum(p, spec_moves(p).len() as int, (depth - 1) as nat)
    }
}

/// The sum of `spec_perft` at `depth` over the successors of the first
/// `i` pseudo-legal moves of `p`.
pub open spec fn spec_perft_sum(p: Position, i: int, depth: nat) -> nat
    decreases depth, 1int, i,
{
    if i <= 0 {
        0
    } else {
        spec_perft_sum(p, i - 1, depth) + spec_perft(spec_make(p, spec_moves(p)[i - 1]), depth)
    }
}

/// The partial sums grow with the number of terms.
proof fn lemma_sum_le(p: Position, i: int, j: int, depth: nat)
    requires
        i <= j,
    ensures
        spec_perft_sum(p, i, depth) <= spec_perft_sum(p, j, depth),
    decreases j - i,
{
    if i < j {
        lemma_sum_le(p, i, j - 1, depth);
    }
}

/// At depth zero every successor counts one leaf, so the sum over the
/// first `i` moves is `i`.
proof fn lemma_sum_ones(p: Position, i: int)
    requires
        0 <= i,
    ensures
        spec_perft_sum(p, i, 0) == i,
    decreases i,
{
    if i > 0 {
        lemma_sum_ones(p, i - 1);
        assert(spec_perft(spec_make(p, spec_moves(p)[i - 1]), 0) == 1);
    }
}

/// A playable move leads from a well-formed position to a well-formed
/// position.
pub proof fn lemma_make_wf(p: Position, m: Move)
    requires
        p.wf(),
        m.wf(),
        spec_move_ok(p, m),
    ensures
        spec_make(p, m).wf(),
{
    match m {
        Move::Pass => {
        },
        Move::Drop(sq) => {
            lemma_targets_empty(p, drop_targets(p), spec_singles(p.spec_us().0), sq.0 as int);
            lemma_make_drop_bits(p, sq);
        },
        Move::Jump(fr, to) => {
            lemma_targets_empty(
                p,
                jump_targets(p, fr.0 as int),
                crate::bitboard::spec_doubles(1u64 << ((fr.0 as int) as u64)),
                to.0 as int,
            );
            lemma_make_jump_bits(p, fr, to);
        },
    }
}

/// A cell of a target board (a neighborhood intersected with the empty
/// cells) is an empty cell.
proof fn lemma_targets_empty(p: Position, targets: u64, hood: u64, i: int)
    requires
        targets == hood & p.spec_empty().0,
        has_bit(targets, i),
    ensures
        has_bit(p.spec_empty().0, i),
{
    lemma_bitop_bits(hood, p.spec_empty().0, i as u64);
}

/// No-move-implies-pass: a running position without placements or jumps
/// has passing as its one legal continuation, and its node count at any
/// positive depth equals the count of its pass successor one level down.
pub proof fn lemma_forced_pass(p: Position, depth: nat)
    requires
        p.wf(),
        !spec_gameover(p),
        spec_moves(p).len() == 0,
        depth >= 1,
    ensures
        p.spec_can_pass(),
        forall|m: Move| p.spec_is_legal(m) <==> m is Pass,
        spec_perft(p, depth) == spec_perft(spec_make(p, Move::Pass), (depth - 1) as nat),
{
    lemma_no_moves_no_reach(p);
    assert forall|m: Move| p.spec_is_legal(m) <==> m is Pass by {
        if !(m is Pass) {
            assert(!spec_moves(p).contains(m));
        }
    }
}

/// If the generator emits nothing, the mover's whole reach misses the
/// empty cells.
proof fn lemma_no_moves_no_reach(p: Position)
    requires
        p.wf(),
        spec_moves(p).len() == 0,
    ensures
        (spec_reach(p.spec_us().0) & p.spec_empty().0) == 0,
{
    let us = p.spec_us().0;
    let empty = p.spec_empty().0;
    assert(us <= FULL_BOARD);
    lemma_singles_wf(us);
    lemma_doubles_wf(us);
    lemma_bitop_wf(spec_singles(us), crate::bitboard::spec_doubles(us));

    // no placements: the one-step targets are empty
    lemma_places_len(p, 49);
    lemma_bitop_wf(spec_singles(us), empty);
    lemma_count_zero(drop_targets(p));

    // no jumps from any occupied cell
    lemma_jumps_segments_empty(p, 49);

    lemma_disjoint_bits(spec_reach(us), empty);
    assert forall|i: int| !(has_bit(spec_reach(us), i) && #[trigger] has_bit(empty, i)) by {
        if 0 <= i < 49 && has_bit(spec_reach(us), i) && has_bit(empty, i) {
            lemma_bitop_bits(spec_singles(us), crate::bitboard::spec_doubles(us), i as u64);
            if has_bit(spec_singles(us), i) {
                lemma_bitop_bits(spec_singles(us), empty, i as u64);
                assert(has_bit(drop_targets(p), i));
            } else {
                assert(has_bit(crate::bitboard::spec_doubles(us), i));
                crate::bitboard::lemma_doubles_has(us, i);
                let j = choose|j: int| has_bit(us, j) && king_dist(j, i) == 2;
                crate::bitboard::lemma_singleton_wf(j);
                lemma_doubles_wf(1u64 << (j as u64));
                lemma_bitop_wf(crate::bitboard::spec_doubles(1u64 << (j as u64)), empty);
                lemma_jumps_from_len(p, j, 49);
                lemma_count_zero(jump_targets(p, j));
                lemma_singleton_doubles(j, i);
                lemma_bitop_bits(
                    crate::bitboard::spec_doubles(1u64 << (j as u64)),
                    empty,
                    i as u64,
                );
                assert(has_bit(jump_targets(p, j), i));
            }
        }
    }
}

/// An empty jump list means every occupied source below `n` has an empty
/// target board.
proof fn lemma_jumps_segments_empty(p: Position, n: int)
    requires
        n <= 49,
        spec_jumps(p, 49).len() == 0,
    ensures
        forall|j: int| 0 <= j < n && has_bit(p.spec_us().0, j) ==> #[trigger] spec_jumps_from(
            p,
            j,
            49,
        ).len() == 0,
    decreases n,
{
    if n > 0 {
        lemma_jumps_segments_empty(p, n - 1);
        if has_bit(p.spec_us().0, n - 1) {
            lemma_jumps_prefix_empty(p, 49, n);
        }
    }
}

/// An empty jump list has every prefix segment empty.
proof fn lemma_jumps_prefix_empty(p: Position, n: int, m: int)
    requires
        0 <= m <= n <= 49,
        spec_jumps(p, n).len() == 0,
    ensures
        spec_jumps(p, m).len() == 0,
        m >= 1 && p.spec_us().has(m - 1) ==> spec_jumps_from(p, m - 1, 49).len() == 0,
    decreases n - m,
{
    if m < n {
        lemma_jumps_prefix_empty(p, n - 1, m);
    }
}

impl Position {
    /// The number of leaves of the move tree expanded to `depth`.
    pub fn perft(&self, depth: u8) -> (r: u64)
        requires
            self.wf(),
            self.fullmoves as int + depth as int <= 0xFFFF_FFFFu32 as int,
            spec_perft(*self, depth as nat) <= 0xFFFF_FFFF_FFFF_FFFFu64,
        ensures
            r == spec_perft(*self, depth as nat),
        decreases depth,
    {
        let ghost p = *self;
        if depth == 0 {
            return 1;
        }
        if self.is_gameover() {
            return 0;
        }
        if depth == 1 {
            proof {
                if spec_moves(p).len() != 0 {
                    lemma_sum_ones(p, spec_moves(p).len() as int);
                } else {
                    assert(spec_perft(spec_make(p, Move::Pass), 0) == 1);
                }
            }
            return self.count_pseudomoves();
        }

        let moves = self.pseudolegal_moves();
        let mut nodes: u64 = 0;
        let mut k: usize = 0;
        while k < moves.len()
            invariant
                p == *self,
                p.wf(),
                !spec_gameover(p),
                p.halfmoves < 100,
                2 <= depth,
                p.fullmoves as int + depth as int <= 0xFFFF_FFFFu32 as int,
                spec_perft(p, depth as nat) <= 0xFFFF_FFFF_FFFF_FFFFu64,
                moves@ == spec_moves(p),
                k <= moves.len(),
                nodes == spec_perft_sum(p, k as int, (depth - 1) as nat),
            decreases moves.len() - k,
        {
            let mv = moves[k];
            proof {
                lemma_moves_ok(p);
                assert(!(mv is Pass) && mv.wf() && spec_move_ok(p, mv));
                lemma_make_wf(p, mv);
                lemma_sum_le(p, k as int + 1, moves@.len() as int, (depth - 1) as nat);
                assert(spec_perft_sum(p, moves@.len() as int, (depth - 1) as nat) == spec_perft(
                    p,
                    depth as nat,
                ));
            }
            let npos = self.after_move(&mv);
            let child = npos.perft(depth - 1);
            proof {
                assert(spec_perft_sum(p, k as int + 1, (depth - 1) as nat) == spec_perft_sum(
                    p,
                    k as int,
                    (depth - 1) as nat,
                ) + spec_perft(spec_make(p, mv), (depth - 1) as nat));
            }
            nodes = nodes + child;
            k = k + 1;
        }

        if moves.len() == 0 {
            let npos = self.after_pass();
            return npos.perft(depth - 1);
        }

        nodes
    }
}

} // verus!
