//! Move generation.

use vstd::prelude::*;
use crate::bitboard::{Bitboard, has_bit, popcount, spec_singles, spec_doubles};
use crate::position::Position;
use crate::moves::Move;
use crate::squares::Square;
use crate::gameover::spec_gameover;

verus! {

/// The cells a new piece may be placed on: empty cells a king-step away
/// from the mover's occupancy.
pub open spec fn drop_targets(p: Position) -> u64 {
    spec_singles(p.spec_us().0) & p.spec_empty().0
}

/// The cells a piece on `from` may jump to: empty cells at king-distance
/// exactly two from `from`.
pub open spec fn jump_targets(p: Position, from: int) -> u64 {
    spec_doubles(1u64 << (from as u64)) & p.spec_empty().0
}

/// The placements with destination below `n`, in increasing destination
/// order.
pub open spec fn spec_places(p: Position, n: int) -> Seq<Move>
    decreases n,
{
    if n <= 0 {
        Seq::empty()
    } else {
        let rest = spec_places(p, n - 1);
        if has_bit(drop_targets(p), n - 1) {
            rest.push(Move::Drop(Square((n - 1) as u8)))
        } else {
            rest
        }
    }
}

/// The jumps from `from` with destination below `n`, in increasing
/// destination order.
pub open spec fn spec_jumps_from(p: Position, from: int, n: int) -> Seq<Move>
    decreases n,
{
    if n <= 0 {
        Seq::empty()
    } else {
        let rest = spec_jumps_from(p, from, n - 1);
        if has_bit(jump_targets(p, from), n - 1) {
            rest.push(Move::Jump(Square(from as u8), Square((n - 1) as u8)))
        } else {
            rest
        }
    }
}

/// The jumps whose source lies below `n`, in increasing source then
/// destination order.
pub open spec fn spec_jumps(p: Position, n: int) -> Seq<Move>
    decreases n,
{
    if n <= 0 {
        Seq::empty()
    } else {
        spec_jumps(p, n - 1) + (if p.spec_us().has(n - 1) {
            spec_jumps_from(p, n - 1, 49)
        } else {
            Seq::empty()
        })
    }
}

/// Every pseudo-legal move of the position: all placements in increasing
/// destination order, then all jumps in increasing source then
/// destination order.
pub open spec fn spec_moves(p: Position) -> Seq<Move> {
    spec_places(p, 49) + spec_jumps(p, 49)
}

/// What makes a non-pass move playable here: a placement lands on a
/// reachable empty cell; a jump starts on a mover's cell and lands on an
/// empty cell at king-distance two.
pub open spec fn spec_move_ok(p: Position, m: Move) -> bool {
    match m {
        Move::Pass => true,
        Move::Drop(sq) => sq.wf() && has_bit(drop_targets(p), sq.0 as int),
        Move::Jump(fr, to) => fr.wf() && to.wf() && p.spec_us().has(fr.0 as int) && has_bit(
            jump_targets(p, fr.0 as int),
            to.0 as int,
        ),
    }
}

/// The number of placements below `n` is the bit count of the target
/// board below `n`.
pub proof fn lemma_places_len(p: Position, n: int)
    requires
        0 <= n <= 49,
    ensures
        spec_places(p, n).len() == popcount(drop_targets(p), n as nat),
    decreases n,
{
    if n > 0 {
        lemma_places_len(p, n - 1);
    }
}

/// The number of jumps from `from` below `n` is the bit count of its
/// target board below `n`.
pub proof fn lemma_jumps_from_len(p: Position, from: int, n: int)
    requires
        0 <= n <= 49,
    ensures
        spec_jumps_from(p, from, n).len() == popcount(jump_targets(p, from), n as nat),
    decreases n,
{
    if n > 0 {
        lemma_jumps_from_len(p, from, n - 1);
    }
}

/// Every generated placement is a playable placement on a board cell.
pub proof fn lemma_places_ok(p: Position, n: int)
    requires
        0 <= n <= 49,
    ensures
        forall|k: int| 0 <= k < spec_places(p, n).len() ==> {
            let m = #[trigger] spec_places(p, n)[k];
            m is Drop && m.wf() && spec_move_ok(p, m)
        },
    decreases n,
{
    if n > 0 {
        lemma_places_ok(p, n - 1);
    }
}

/// Every generated jump from `from` is a playable jump on board cells.
pub proof fn lemma_jumps_from_ok(p: Position, from: int, n: int)
    requires
        0 <= from < 49,
        0 <= n <= 49,
        p.spec_us().has(from),
    ensures
        forall|k: int| 0 <= k < spec_jumps_from(p, from, n).len() ==> {
            let m = #[trigger] spec_jumps_from(p, from, n)[k];
            m is Jump && m.wf() && spec_move_ok(p, m)
        },
    decreases n,
{
    if n > 0 {
        lemma_jumps_from_ok(p, from, n - 1);
    }
}

/// Every generated jump is a playable jump on board cells.
pub proof fn lemma_jumps_ok(p: Position, n: int)
    requires
        0 <= n <= 49,
    ensures
        forall|k: int| 0 <= k < spec_jumps(p, n).len() ==> {
            let m = #[trigger] spec_jumps(p, n)[k];
            m is Jump && m.wf() && spec_move_ok(p, m)
        },
    decreases n,
{
    if n > 0 {
        lemma_jumps_ok(p, n - 1);
        if p.spec_us().has(n - 1) {
            lemma_jumps_from_ok(p, n - 1, 49);
        }
    }
}

/// Every generated move is a playable placement or jump; none is a pass.
pub proof fn lemma_moves_ok(p: Position)
    ensures
        forall|k: int| 0 <= k < spec_moves(p).len() ==> {
            let m = #[trigger] spec_moves(p)[k];
            !(m is Pass) && m.wf() && spec_move_ok(p, m)
        },
{
    lemma_places_ok(p, 49);
    lemma_jumps_ok(p, 49);
}

/// The generator misses nothing: every playable placement and every
/// playable jump appears in the generated move list.
pub proof fn lemma_moves_complete(p: Position, m: Move)
    requires
        !(m is Pass),
        m.wf(),
        spec_move_ok(p, m),
    ensures
        spec_moves(p).contains(m),
{
    match m {
        Move::Pass => {
        },
        Move::Drop(sq) => {
            lemma_places_complete(p, sq, 49);
            let places = spec_places(p, 49);
            let j = choose|j: int| 0 <= j < places.len() && places[j] == m;
            assert(spec_moves(p)[j] == m);
        },
        Move::Jump(fr, to) => {
            lemma_jumps_complete(p, fr, to, 49);
            let places = spec_places(p, 49);
            let jumps = spec_jumps(p, 49);
            let j = choose|j: int| 0 <= j < jumps.len() && jumps[j] == m;
            assert(spec_moves(p)[places.len() + j] == m);
        },
    }
}

/// Soundness and completeness in one sentence: a placement or jump is
/// generated exactly when it is playable.
pub proof fn lemma_moves_characterize(p: Position, m: Move)
    requires
        !(m is Pass),
    ensures
        spec_moves(p).contains(m) <==> (m.wf() && spec_move_ok(p, m)),
{
    lemma_moves_ok(p);
    if m.wf() && spec_move_ok(p, m) {
        lemma_moves_complete(p, m);
    }
    if spec_moves(p).contains(m) {
        let k = choose|k: int| 0 <= k < spec_moves(p).len() && spec_moves(p)[k] == m;
        assert(spec_moves(p)[k] == m);
    }
}

/// A playable placement appears among the placements once its
/// destination is below the bound.
proof fn lemma_places_complete(p: Position, sq: Square, n: int)
    requires
        sq.wf(),
        has_bit(drop_targets(p), sq.0 as int),
        sq.0 < n <= 49,
    ensures
        spec_places(p, n).contains(Move::Drop(sq)),
    decreases n,
{
    let prev = spec_places(p, n - 1);
    if n - 1 == sq.0 as int {
        assert(Square((n - 1) as u8) == sq);
        assert(spec_places(p, n) == prev.push(Move::Drop(sq)));
        assert(spec_places(p, n)[prev.len() as int] == Move::Drop(sq));
    } else {
        lemma_places_complete(p, sq, n - 1);
        let j = choose|j: int| 0 <= j < prev.len() && prev[j] == Move::Drop(sq);
        assert(spec_places(p, n)[j] == Move::Drop(sq));
    }
}

/// A playable jump from `fr` appears among the jumps from `fr` once its
/// destination is below the bound.
proof fn lemma_jumps_from_complete(p: Position, fr: Square, to: Square, n: int)
    requires
        fr.wf(),
        to.wf(),
        has_bit(jump_targets(p, fr.0 as int), to.0 as int),
        to.0 < n <= 49,
    ensures
        spec_jumps_from(p, fr.0 as int, n).contains(Move::Jump(fr, to)),
    decreases n,
{
    let prev = spec_jumps_from(p, fr.0 as int, n - 1);
    if n - 1 == to.0 as int {
        assert(Square((fr.0 as int) as u8) == fr);
        assert(Square((n - 1) as u8) == to);
        assert(spec_jumps_from(p, fr.0 as int, n) == prev.push(Move::Jump(fr, to)));
        assert(spec_jumps_from(p, fr.0 as int, n)[prev.len() as int] == Move::Jump(fr, to));
    } else {
        lemma_jumps_from_complete(p, fr, to, n - 1);
        let j = choose|j: int| 0 <= j < prev.len() && prev[j] == Move::Jump(fr, to);
        assert(spec_jumps_from(p, fr.0 as int, n)[j] == Move::Jump(fr, to));
    }
}

/// A playable jump appears among the jumps once its source is below the
/// bound.
proof fn lemma_jumps_complete(p: Position, fr: Square, to: Square, n: int)
    requires
        fr.wf(),
        to.wf(),
        p.spec_us().has(fr.0 as int),
        has_bit(jump_targets(p, fr.0 as int), to.0 as int),
        fr.0 < n <= 49,
    ensures
        spec_jumps(p, n).contains(Move::Jump(fr, to)),
    decreases n,
{
    let prev = spec_jumps(p, n - 1);
    if n - 1 == fr.0 as int {
        lemma_jumps_from_complete(p, fr, to, 49);
        let seg = spec_jumps_from(p, fr.0 as int, 49);
        let j = choose|j: int| 0 <= j < seg.len() && seg[j] == Move::Jump(fr, to);
        assert(spec_jumps(p, n) == prev + seg);
        assert(spec_jumps(p, n)[prev.len() + j] == Move::Jump(fr, to));
    } else {
        lemma_jumps_complete(p, fr, to, n - 1);
        let j = choose|j: int| 0 <= j < prev.len() && prev[j] == Move::Jump(fr, to);
        if p.spec_us().has(n - 1) {
            assert(spec_jumps(p, n) == prev + spec_jumps_from(p, n - 1, 49));
            assert(spec_jumps(p, n)[j] == Move::Jump(fr, to));
        } else {
            assert(spec_jumps(p, n) == prev + Seq::<Move>::empty());
            assert(spec_jumps(p, n)[j] == Move::Jump(fr, to));
        }
    }
}

impl Position {
    /// The legal moves: none once the game is over, else every
    /// pseudo-legal move, since every pseudo-legal move is legal.
    pub fn legal_moves(&self) -> (r: Vec<Move>)
        requires
            self.wf(),
        ensures
            r@ == if spec_gameover(*self) {
                Seq::<Move>::empty()
            } else {
                spec_moves(*self)
            },
    {
        if self.is_gameover() {
            return Vec::new();
        }
        self.pseudolegal_moves()
    }

    /// Every placement into a reachable empty cell, then every jump from
    /// each of the mover's cells, in increasing cell order.
    pub fn pseudolegal_moves(&self) -> (r: Vec<Move>)
        requires
            self.wf(),
        ensures
            r@ == spec_moves(*self),
    {
        let ghost p = *self;
        let mut vec: Vec<Move> = Vec::new();
        let empty_bb = self.get_empty();
        let us = self.get_us();
        let targets = us.singles().and(empty_bb);
        proof {
            assert(targets.0 == drop_targets(p));
        }

        let mut to: u8 = 0;
        while to < 49
            invariant
                p == *self,
                p.wf(),
                to <= 49,
                targets.0 == drop_targets(p),
                vec@ == spec_places(p, to as int),
            decreases 49 - to,
        {
            if targets.is_set(to) {
                vec.push(Move::Drop(Square(to)));
            }
            to = to + 1;
        }

        let mut from: u8 = 0;
        while from < 49
            invariant
                p == *self,
                p.wf(),
                from <= 49,
                us == p.spec_us(),
                empty_bb == p.spec_empty(),
                vec@ == spec_places(p, 49) + spec_jumps(p, from as int),
            decreases 49 - from,
        {
            if us.is_set(from) {
                let jt = Bitboard::from_index(from).doubles().and(empty_bb);
                proof {
                    assert(jt.0 == jump_targets(p, from as int));
                }
                let ghost base = vec@;
                let mut t: u8 = 0;
                while t < 49
                    invariant
                        p == *self,
                        t <= 49,
                        from < 49,
                        jt.0 == jump_targets(p, from as int),
                        vec@ == base + spec_jumps_from(p, from as int, t as int),
                        base == spec_places(p, 49) + spec_jumps(p, from as int),
                    decreases 49 - t,
                {
                    if jt.is_set(t) {
                        vec.push(Move::Jump(Square(from), Square(t)));
                        proof {
                            assert(vec@ =~= base + spec_jumps_from(p, from as int, t as int + 1));
                        }
                    } else {
                        proof {
                            assert(vec@ =~= base + spec_jumps_from(p, from as int, t as int + 1));
                        }
                    }
                    t = t + 1;
                }
                proof {
                    assert(spec_jumps(p, from as int + 1) == spec_jumps(p, from as int)
                        + spec_jumps_from(p, from as int, 49));
                    assert(vec@ =~= spec_places(p, 49) + spec_jumps(p, from as int + 1));
                }
            } else {
                proof {
                    assert(spec_jumps(p, from as int + 1) =~= spec_jumps(p, from as int));
                }
            }
            from = from + 1;
        }
        proof {
            assert(vec@ =~= spec_moves(p));
        }
        vec
    }
}

} // verus!
