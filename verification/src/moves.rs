//! Moves and their compact coordinate notation.

use vstd::prelude::*;
use crate::squares::{Square, is_file_char, is_rank_char, file_of, rank_of, char_of_file,
    char_of_rank};
use crate::bitboard::lemma_square_coords;

verus! {

/// A move: pass, place a new piece on an empty cell, or jump an existing
/// piece to a cell at king-distance exactly two.
#[derive(Debug, Copy, Clone, PartialEq, Eq, Structural)]
pub enum Move {
    Pass,
    Drop(Square),
    Jump(Square, Square),
}

/// Why a move string was rejected.
#[derive(Debug, Copy, Clone, PartialEq, Eq, Structural)]
pub enum MoveError {
    /// The string has a length other than two or four characters.
    WrongLength,
    /// A coordinate is not a column letter `a`-`g` followed by a rank
    /// digit `1`-`7`.
    BadSquare,
}

/// The fixed four-character null-move token.
pub open spec fn is_pass_token(s: Seq<char>) -> bool {
    s.len() == 4 && s[0] == '0' && s[1] == '0' && s[2] == '0' && s[3] == '0'
}

/// The two characters at `k` are a valid cell coordinate.
pub open spec fn is_coord_at(s: Seq<char>, k: int) -> bool {
    0 <= k && k + 2 <= s.len() && is_file_char(s[k]) && is_rank_char(s[k + 1])
}

/// The cell index named by the two characters at `k`.
pub open spec fn coord_index_at(s: Seq<char>, k: int) -> int {
    7 * ((s[k + 1] as int) - 49) + ((s[k] as int) - 97)
}

/// What `Move::from_string` returns on any input: the null-move token
/// parses as `Pass`, a two-character string as a placement, a
/// four-character string as a jump, and any other length is an error.
pub open spec fn spec_parse_move(s: Seq<char>) -> Result<Move, MoveError> {
    if is_pass_token(s) {
        Ok(Move::Pass)
    } else if s.len() == 2 {
        if is_coord_at(s, 0) {
            Ok(Move::Drop(Square(coord_index_at(s, 0) as u8)))
        } else {
            Err(MoveError::BadSquare)
        }
    } else if s.len() == 4 {
        if is_coord_at(s, 0) && is_coord_at(s, 2) {
            Ok(Move::Jump(Square(coord_index_at(s, 0) as u8), Square(coord_index_at(s, 2) as u8)))
        } else {
            Err(MoveError::BadSquare)
        }
    } else {
        Err(MoveError::WrongLength)
    }
}

impl Move {
    /// Every cell the move names lies on the board.
    pub open spec fn wf(self) -> bool {
        match self {
            Move::Pass => true,
            Move::Drop(sq) => sq.wf(),
            Move::Jump(fr, to) => fr.wf() && to.wf(),
        }
    }

    /// The compact text of the move: `0000` for a pass, the destination
    /// coordinate for a placement, source then destination for a jump.
    pub open spec fn spec_str(self) -> Seq<char> {
        match self {
            Move::Pass => seq!['0', '0', '0', '0'],
            Move::Drop(sq) => sq.spec_str(),
            Move::Jump(fr, to) => fr.spec_str() + to.spec_str(),
        }
    }

    /// The source cell of a jump; placements and passes have none.
    pub open spec fn spec_from(self) -> Option<Square> {
        match self {
            Move::Pass => None,
            Move::Drop(_) => None,
            Move::Jump(fr, _) => Some(fr),
        }
    }

    /// The destination cell; a pass has none.
    pub open spec fn spec_to(self) -> Option<Square> {
        match self {
            Move::Pass => None,
            Move::Drop(sq) => Some(sq),
            Move::Jump(_, to) => Some(to),
        }
    }

    /// Reads a move from its compact text, the inverse of `to_string`.
    pub fn from_string(movestr: &str) -> (r: Result<Move, MoveError>)
        ensures
            r == spec_parse_move(movestr@),
            r matches Ok(m) ==> m.wf(),
    {
        let n = movestr.unicode_len();
        if n == 4 && movestr.get_char(0) == '0' && movestr.get_char(1) == '0' && movestr.get_char(2)
            == '0' && movestr.get_char(3) == '0' {
            return Ok(Move::Pass);
        }
        if n == 2 {
            if Self::coord_ok(movestr, 0) {
                let to = Square::from_str(movestr);
                return Ok(Move::Drop(to));
            }
            return Err(MoveError::BadSquare);
        }
        if n == 4 {
            if Self::coord_ok(movestr, 0) && Self::coord_ok(movestr, 2) {
                let fr = Square::from_str(movestr);
                let tostr = movestr.substring_char(2, 4);
                let to = Square::from_str(tostr);
                proof {
                    assert(tostr@[0] == movestr@[2] && tostr@[1] == movestr@[3]);
                    assert(to.0 == coord_index_at(movestr@, 2));
                }
                return Ok(Move::Jump(fr, to));
            }
            return Err(MoveError::BadSquare);
        }
        Err(MoveError::WrongLength)
    }

    /// Tests the two characters at `k` for a valid cell coordinate.
    fn coord_ok(s: &str, k: usize) -> (r: bool)
        requires
            k <= 2,
            k + 2 <= s@.len(),
        ensures
            r == is_coord_at(s@, k as int),
    {
        let c0 = s.get_char(k);
        let c1 = s.get_char(k + 1);
        let v0 = c0 as u32;
        let v1 = c1 as u32;
        97 <= v0 && v0 <= 103 && 49 <= v1 && v1 <= 55
    }

    /// The move is a pass.
    pub fn is_pass(&self) -> (r: bool)
        ensures
            r == (*self is Pass),
    {
        matches!(self, Move::Pass)
    }

    /// The move places a new piece.
    pub fn is_single(&self) -> (r: bool)
        ensures
            r == (*self is Drop),
    {
        matches!(self, Move::Drop(_))
    }

    /// The move jumps an existing piece.
    pub fn is_double(&self) -> (r: bool)
        ensures
            r == (*self is Jump),
    {
        matches!(self, Move::Jump(_, _))
    }

    /// The source cell of a jump; placements and passes have none.
    pub fn from(&self) -> (r: Option<Square>)
        ensures
            r == self.spec_from(),
    {
        match self {
            Move::Pass => None,
            Move::Drop(_) => None,
            Move::Jump(fr, _) => Some(*fr),
        }
    }

    /// The destination cell; a pass has none.
    pub fn to(&self) -> (r: Option<Square>)
        ensures
            r == self.spec_to(),
    {
        match self {
            Move::Pass => None,
            Move::Drop(sq) => Some(*sq),
            Move::Jump(_, to) => Some(*to),
        }
    }

    /// Writes the compact text of the move, the inverse of `from_string`.
    pub fn to_string(&self) -> (r: String)
        requires
            self.wf(),
        ensures
            r@ == self.spec_str(),
    {
        match self {
            Move::Pass => {
                proof {
                    reveal_strlit("0000");
                }
                let s = "0000".to_owned();
                proof {
                    assert(s@ =~= self.spec_str());
                }
                s
            },
            Move::Drop(sq) => sq.to_string(),
            Move::Jump(fr, to) => {
                let mut s = fr.to_string();
                let t = to.to_string();
                s.append(t.as_str());
                s
            },
        }
    }
}

/// Reading back the text of a move gives the move again: the inverse law
/// for the pass token, every placement, and every jump on board cells.
pub proof fn lemma_move_string_inverse(m: Move)
    requires
        m.wf(),
    ensures
        spec_parse_move(m.spec_str()) == Ok::<Move, MoveError>(m),
{
    match m {
        Move::Pass => {
        },
        Move::Drop(sq) => {
            lemma_coord_str_inverse(sq);
            let s = m.spec_str();
            assert(!is_pass_token(s));
            assert(coord_index_at(s, 0) == sq.0);
        },
        Move::Jump(fr, to) => {
            lemma_coord_str_inverse(fr);
            lemma_coord_str_inverse(to);
            let s = m.spec_str();
            assert(s.len() == 4);
            assert(s[0] == fr.spec_str()[0] && s[1] == fr.spec_str()[1]);
            assert(s[2] == to.spec_str()[0] && s[3] == to.spec_str()[1]);
            assert(!is_pass_token(s));
            assert(is_coord_at(s, 0) && is_coord_at(s, 2));
            assert(coord_index_at(s, 0) == sq_index_of_str(fr));
            assert(coord_index_at(s, 2) == sq_index_of_str(to));
            assert(coord_index_at(s, 0) == fr.0);
            assert(coord_index_at(s, 2) == to.0);
        },
    }
}

/// The index read back from a square's own coordinate text.
spec fn sq_index_of_str(sq: Square) -> int {
    7 * ((sq.spec_str()[1] as int) - 49) + ((sq.spec_str()[0] as int) - 97)
}

/// A square's coordinate text is a valid coordinate and names the square.
proof fn lemma_coord_str_inverse(sq: Square)
    requires
        sq.wf(),
    ensures
        is_file_char(sq.spec_str()[0]),
        is_rank_char(sq.spec_str()[1]),
        sq.spec_str().len() == 2,
        sq_index_of_str(sq) == sq.0,
{
    lemma_square_coords(sq.0 as int);
    let x = file_of(sq.0 as int);
    let y = rank_of(sq.0 as int);
    assert((char_of_file(x) as int) == 97 + x);
    assert((char_of_rank(y) as int) == 49 + y);
}

} // verus!
