//! The textual board notation.
//!
//! A position is written as seven rows from the top rank down, separated
//! by `/`: `x` and `o` for the two sides' pieces, `-` for a wall, and a
//! digit 1-7 for that many consecutive empty cells.  Three further
//! space-separated fields give the side to move, the half-move clock and
//! the full-move counter.  The sentinel `startpos` names the canonical
//! opening position.

use vstd::prelude::*;
use crate::bitboard::{Bitboard, FULL_BOARD, has_bit, lemma_bitop_bits, lemma_bitop_wf,
    lemma_single_bit, lemma_index_coords, lemma_square_coords, lemma_disjoint_bits};
use crate::position::Position;
use crate::side::Side;
use crate::squares::{file_of, rank_of};

verus! {

/// Why a notation string was rejected.
#[derive(Debug, Copy, Clone, PartialEq, Eq, Structural)]
pub enum FenError {
    /// The string does not have exactly four space-separated fields.
    WrongFieldCount,
    /// The board field holds a character that is not a piece, wall,
    /// digit or row separator.
    BadBoardChar,
    /// A row describes more than seven cells.
    RowTooLong,
    /// The board field describes more than seven rows.
    TooManyRows,
    /// The side-to-move field is not one of `x`, `X`, `o`, `O`.
    BadSideChar,
    /// A counter field is not a decimal number that fits the counter.
    BadCounter,
}

/// The canonical opening position: each side holds the two cells on one
/// of the board's diagonals of corners, Black to move.
pub open spec fn spec_start_position() -> Position {
    Position {
        black: Bitboard(0x40000000040u64),
        white: Bitboard(0x1000000000001u64),
        walls: Bitboard(0u64),
        turn: Side::Black,
        halfmoves: 0,
        fullmoves: 1,
    }
}

/// The sentinel literal `startpos`.
pub open spec fn is_startpos(s: Seq<char>) -> bool {
    s.len() == 8 && s[0] == 's' && s[1] == 't' && s[2] == 'a' && s[3] == 'r' && s[4] == 't' && s[5]
        == 'p' && s[6] == 'o' && s[7] == 's'
}

/// Splitting on spaces: the fields of `s`, with `cur` the field read so
/// far.
pub open spec fn split_acc(s: Seq<char>, cur: Seq<char>) -> Seq<Seq<char>>
    decreases s.len(),
{
    if s.len() == 0 {
        seq![cur]
    } else if s[0] == ' ' {
        seq![cur] + split_acc(s.subrange(1, s.len() as int), Seq::empty())
    } else {
        split_acc(s.subrange(1, s.len() as int), cur.push(s[0]))
    }
}

/// The space-separated fields of `s`.
pub open spec fn spec_fields(s: Seq<char>) -> Seq<Seq<char>> {
    split_acc(s, Seq::empty())
}

/// The board-field parser state: next column, current row, and the three
/// boards read so far.
pub open spec fn board_step(st: (int, int, u64, u64, u64), c: char) -> Result<
    (int, int, u64, u64, u64),
    FenError,
> {
    let x = st.0;
    let y = st.1;
    if c == 'x' || c == 'X' {
        if x <= 6 {
            Ok((x + 1, y, st.2 | (1u64 << ((7 * y + x) as u64)), st.3, st.4))
        } else {
            Err(FenError::RowTooLong)
        }
    } else if c == 'o' || c == 'O' {
        if x <= 6 {
            Ok((x + 1, y, st.2, st.3 | (1u64 << ((7 * y + x) as u64)), st.4))
        } else {
            Err(FenError::RowTooLong)
        }
    } else if c == '-' {
        if x <= 6 {
            Ok((x + 1, y, st.2, st.3, st.4 | (1u64 << ((7 * y + x) as u64))))
        } else {
            Err(FenError::RowTooLong)
        }
    } else if 49 <= (c as int) && (c as int) <= 55 {
        if x + ((c as int) - 48) <= 7 {
            Ok((x + ((c as int) - 48), y, st.2, st.3, st.4))
        } else {
            Err(FenError::RowTooLong)
        }
    } else if c == '/' {
        if y >= 1 {
            Ok((0, y - 1, st.2, st.3, st.4))
        } else {
            Err(FenError::TooManyRows)
        }
    } else {
        Err(FenError::BadBoardChar)
    }
}

/// Folding the board field character by character.
pub open spec fn board_fold(s: Seq<char>, st: (int, int, u64, u64, u64)) -> Result<
    (int, int, u64, u64, u64),
    FenError,
>
    decreases s.len(),
{
    if s.len() == 0 {
        Ok(st)
    } else {
        match board_step(st, s[0]) {
            Ok(st2) => board_fold(s.subrange(1, s.len() as int), st2),
            Err(e) => Err(e),
        }
    }
}

/// The side-to-move field: exactly one letter of either case.
pub open spec fn parse_side(s: Seq<char>) -> Result<Side, FenError> {
    if s.len() == 1 && (s[0] == 'x' || s[0] == 'X') {
        Ok(Side::Black)
    } else if s.len() == 1 && (s[0] == 'o' || s[0] == 'O') {
        Ok(Side::White)
    } else {
        Err(FenError::BadSideChar)
    }
}

/// All characters are decimal digits.
pub open spec fn all_digits(s: Seq<char>) -> bool {
    forall|i: int| 0 <= i < s.len() ==> 48 <= (#[trigger] s[i] as int) <= 57
}

/// The value of a digit string.
pub open spec fn digits_val(s: Seq<char>) -> int
    decreases s.len(),
{
    if s.len() == 0 {
        0
    } else {
        digits_val(s.drop_last()) * 10 + ((s.last() as int) - 48)
    }
}

/// A counter field: one or more digits whose value fits the counter.
pub open spec fn parse_counter(s: Seq<char>) -> Result<u32, FenError> {
    if s.len() >= 1 && all_digits(s) && digits_val(s) <= 0xFFFF_FFFFu32 {
        Ok(digits_val(s) as u32)
    } else {
        Err(FenError::BadCounter)
    }
}

/// What `Position::from_fen` returns on any input: the sentinel expands
/// to the opening position; otherwise the string must hold exactly four
/// fields — board, side to move, half-move clock, full-move counter —
/// each parsed as above.
pub open spec fn spec_parse_fen(s: Seq<char>) -> Result<Position, FenError> {
    if is_startpos(s) {
        Ok(spec_start_position())
    } else {
        let fs = spec_fields(s);
        if fs.len() != 4 {
            Err(FenError::WrongFieldCount)
        } else {
            match board_fold(fs[0], (0, 6, 0u64, 0u64, 0u64)) {
                Err(e) => Err(e),
                Ok(st) => match parse_side(fs[1]) {
                    Err(e) => Err(e),
                    Ok(side) => match parse_counter(fs[2]) {
                        Err(e) => Err(e),
                        Ok(hm) => match parse_counter(fs[3]) {
                            Err(e) => Err(e),
                            Ok(fm) => Ok(
                                Position {
                                    black: Bitboard(st.2),
                                    white: Bitboard(st.3),
                                    walls: Bitboard(st.4),
                                    turn: side,
                                    halfmoves: hm,
                                    fullmoves: fm,
                                },
                            ),
                        },
                    },
                },
            }
        }
    }
}

/// Cell `i` lies in the part of the board the parser has passed: above
/// row `y`, or on row `y` left of column `x`.
pub open spec fn region(i: int, x: int, y: int) -> bool {
    rank_of(i) > y || (rank_of(i) == y && file_of(i) < x)
}

/// Every cell of `b` lies in the passed part of the board.
pub open spec fn in_region(b: u64, x: int, y: int) -> bool {
    forall|i: int| #[trigger] has_bit(b, i) ==> region(i, x, y)
}

/// The parser-state invariant: coordinates in range, boards inside the
/// 49-bit space, pairwise disjoint, and confined to the passed region.
pub open spec fn acc_inv(st: (int, int, u64, u64, u64)) -> bool {
    &&& 0 <= st.0 <= 7
    &&& 0 <= st.1 <= 6
    &&& st.2 <= FULL_BOARD
    &&& st.3 <= FULL_BOARD
    &&& st.4 <= FULL_BOARD
    &&& in_region(st.2, st.0, st.1)
    &&& in_region(st.3, st.0, st.1)
    &&& in_region(st.4, st.0, st.1)
    &&& (forall|i: int| !(#[trigger] has_bit(st.2, i) && has_bit(st.3, i)))
    &&& (forall|i: int| !(#[trigger] has_bit(st.2, i) && has_bit(st.4, i)))
    &&& (forall|i: int| !(#[trigger] has_bit(st.3, i) && has_bit(st.4, i)))
}

/// One parser step keeps the invariant.
pub proof fn lemma_step_inv(st: (int, int, u64, u64, u64), c: char)
    requires
        acc_inv(st),
        board_step(st, c) is Ok,
    ensures
        acc_inv(board_step(st, c)->Ok_0),
{
    let x = st.0;
    let y = st.1;
    let st2 = board_step(st, c)->Ok_0;
    if (c == 'x' || c == 'X' || c == 'o' || c == 'O' || c == '-') && x <= 6 {
        let i0 = 7 * y + x;
        let cell = 1u64 << (i0 as u64);
        lemma_index_coords(x, y);
        lemma_single_bit(i0 as u64, 0);
        assert forall|i: int| #[trigger] has_bit(cell, i) <==> i == i0 by {
            if 0 <= i < 49 {
                lemma_single_bit(i0 as u64, i as u64);
            }
        }
        lemma_or_region(st.2, cell, i0, x, y);
        lemma_or_region(st.3, cell, i0, x, y);
        lemma_or_region(st.4, cell, i0, x, y);
        assert(region(i0, x + 1, y));
        assert(!region(i0, x, y));
        lemma_region_mono(st.2, x, y, x + 1, y);
        lemma_region_mono(st.3, x, y, x + 1, y);
        lemma_region_mono(st.4, x, y, x + 1, y);
    } else if 49 <= (c as int) && (c as int) <= 55 {
        lemma_region_mono(st.2, x, y, st2.0, y);
        lemma_region_mono(st.3, x, y, st2.0, y);
        lemma_region_mono(st.4, x, y, st2.0, y);
    } else if c == '/' {
        lemma_region_mono(st.2, x, y, 0, y - 1);
        lemma_region_mono(st.3, x, y, 0, y - 1);
        lemma_region_mono(st.4, x, y, 0, y - 1);
    }
}

/// Adding the single cell `i0` to a board confined to the region left of
/// `(x, y)` confines it to the region left of `(x + 1, y)`, and the bits
/// of the union are the old bits plus `i0`.
proof fn lemma_or_region(b: u64, cell: u64, i0: int, x: int, y: int)
    requires
        b <= FULL_BOARD,
        cell == (1u64 << (i0 as u64)),
        0 <= i0 < 49,
        forall|i: int| #[trigger] has_bit(cell, i) <==> i == i0,
        in_region(b, x, y),
        region(i0, x + 1, y),
        rank_of(i0) == y && file_of(i0) == x,
    ensures
        b | cell <= FULL_BOARD,
        forall|i: int| #[trigger] has_bit(b | cell, i) <==> (has_bit(b, i) || i == i0),
        in_region(b | cell, x + 1, y),
        !has_bit(b, i0),
{
    lemma_single_bit(i0 as u64, 0);
    lemma_bitop_wf(b, cell);
    assert forall|i: int| #[trigger] has_bit(b | cell, i) <==> (has_bit(b, i) || i == i0) by {
        assert(has_bit(cell, i) <==> i == i0);
        if 0 <= i < 49 {
            lemma_bitop_bits(b, cell, i as u64);
        }
    }
    assert forall|i: int| #[trigger] has_bit(b | cell, i) implies region(i, x + 1, y) by {
        if has_bit(b, i) {
            assert(region(i, x, y));
        }
    }
}

/// A board confined to a region stays confined when the region grows.
proof fn lemma_region_mono(b: u64, x1: int, y1: int, x2: int, y2: int)
    requires
        in_region(b, x1, y1),
        y2 == y1 && x1 <= x2 || y2 == y1 - 1 && x2 == 0,
    ensures
        in_region(b, x2, y2),
{
    assert forall|i: int| #[trigger] has_bit(b, i) implies region(i, x2, y2) by {
        assert(region(i, x1, y1));
    }
}

/// The fold keeps the invariant along the whole board field.
pub proof fn lemma_fold_inv(s: Seq<char>, st: (int, int, u64, u64, u64))
    requires
        acc_inv(st),
        board_fold(s, st) is Ok,
    ensures
        acc_inv(board_fold(s, st)->Ok_0),
    decreases s.len(),
{
    if s.len() > 0 {
        let st2 = board_step(st, s[0]);
        if st2 is Ok {
            lemma_step_inv(st, s[0]);
            lemma_fold_inv(s.subrange(1, s.len() as int), st2->Ok_0);
        }
    }
}

/// A successfully parsed notation string names a well-formed position.
pub proof fn lemma_parse_wf(s: Seq<char>)
    requires
        spec_parse_fen(s) is Ok,
    ensures
        spec_parse_fen(s)->Ok_0.wf(),
{
    if is_startpos(s) {
        let p = spec_start_position();
        assert((0x40000000040u64 <= 0x1FFFFFFFFFFFFu64 && 0x1000000000001u64
            <= 0x1FFFFFFFFFFFFu64 && 0u64 <= 0x1FFFFFFFFFFFFu64 && (0x40000000040u64
            & 0x1000000000001u64) == 0u64 && (0x40000000040u64 & 0u64) == 0u64 && (
        0x1000000000001u64 & 0u64) == 0u64)) by (bit_vector);
        assert(p.wf());
    } else {
        let fs = spec_fields(s);
        let st0 = (0int, 6int, 0u64, 0u64, 0u64);
        assert(acc_inv(st0)) by {
            assert forall|i: int| !(#[trigger] has_bit(0u64, i)) by {
                if 0 <= i < 49 {
                    lemma_bitop_bits(0, 0, i as u64);
                }
            }
        }
        let st = board_fold(fs[0], st0)->Ok_0;
        lemma_fold_inv(fs[0], st0);
        lemma_disjoint_bits(st.2, st.3);
        lemma_disjoint_bits(st.2, st.4);
        lemma_disjoint_bits(st.3, st.4);
    }
}

impl Position {
    /// Reads a position from the board notation, the inverse of
    /// `get_fen` on every string `get_fen` produces.
    pub fn from_fen(fen: &str) -> (r: Result<Position, FenError>)
        ensures
            r == spec_parse_fen(fen@),
            r matches Ok(p) ==> p.wf(),
    {
        proof {
            if spec_parse_fen(fen@) is Ok {
                lemma_parse_wf(fen@);
            }
        }
        let n = fen.unicode_len();
        if n == 8 && fen.get_char(0) == 's' && fen.get_char(1) == 't' && fen.get_char(2) == 'a'
            && fen.get_char(3) == 'r' && fen.get_char(4) == 't' && fen.get_char(5) == 'p'
            && fen.get_char(6) == 'o' && fen.get_char(7) == 's' {
            return Ok(
                Position {
                    black: Bitboard::new(0x40000000040),
                    white: Bitboard::new(0x1000000000001),
                    walls: Bitboard::new(0),
                    turn: Side::Black,
                    halfmoves: 0,
                    fullmoves: 1,
                },
            );
        }

        // split into space-separated fields
        let mut fields: Vec<&str> = Vec::new();
        let ghost mut gf: Seq<Seq<char>> = Seq::empty();
        let mut st: usize = 0;
        let mut i: usize = 0;
        proof {
            assert(fen@.subrange(0, n as int) =~= fen@);
            assert(fen@.subrange(0, 0) =~= Seq::<char>::empty());
            assert(gf + split_acc(fen@, Seq::empty()) =~= split_acc(fen@, Seq::empty()));
        }
        while i < n
            invariant
                n == fen@.len(),
                st <= i <= n,
                fields@.len() == gf.len(),
                forall|k: int| 0 <= k < gf.len() ==> (#[trigger] fields@[k])@ == gf[k],
                spec_fields(fen@) == gf + split_acc(
                    fen@.subrange(i as int, n as int),
                    fen@.subrange(st as int, i as int),
                ),
            decreases n - i,
        {
            let ghost rest = fen@.subrange(i as int, n as int);
            let ghost cur = fen@.subrange(st as int, i as int);
            if fen.get_char(i) == ' ' {
                let f = fen.substring_char(st, i);
                fields.push(f);
                proof {
                    gf = gf + seq![f@];
                    assert(rest[0] == ' ');
                    assert(rest.subrange(1, rest.len() as int) =~= fen@.subrange(
                        i as int + 1,
                        n as int,
                    ));
                    assert(split_acc(rest, cur) == seq![cur] + split_acc(
                        fen@.subrange(i as int + 1, n as int),
                        Seq::empty(),
                    ));
                    assert(fen@.subrange(i as int + 1, i as int + 1) =~= Seq::<char>::empty());
                }
                st = i + 1;
            } else {
                proof {
                    assert(rest[0] == fen@[i as int]);
                    assert(rest.subrange(1, rest.len() as int) =~= fen@.subrange(
                        i as int + 1,
                        n as int,
                    ));
                    assert(cur.push(fen@[i as int]) =~= fen@.subrange(st as int, i as int + 1));
                    assert(split_acc(rest, cur) == split_acc(
                        fen@.subrange(i as int + 1, n as int),
                        fen@.subrange(st as int, i as int + 1),
                    ));
                }
            }
            i = i + 1;
        }
        let flast = fen.substring_char(st, n);
        fields.push(flast);
        proof {
            gf = gf + seq![flast@];
            assert(fen@.subrange(n as int, n as int) =~= Seq::<char>::empty());
            assert(split_acc(Seq::<char>::empty(), fen@.subrange(st as int, n as int)) == seq![
                fen@.subrange(st as int, n as int),
            ]);
            assert(spec_fields(fen@) == gf);
        }

        if fields.len() != 4 {
            return Err(FenError::WrongFieldCount);
        }

        // board field
        let f0 = fields[0];
        let m = f0.unicode_len();
        let ghost fs = spec_fields(fen@);
        let mut x: u8 = 0;
        let mut y: u8 = 6;
        let mut black: u64 = 0;
        let mut white: u64 = 0;
        let mut walls: u64 = 0;
        let mut j: usize = 0;
        proof {
            assert(gf.len() == 4);
            assert(f0@ == fs[0]);
            assert(f0@.subrange(0, m as int) =~= f0@);
        }
        while j < m
            invariant
                m == f0@.len(),
                j <= m,
                !is_startpos(fen@),
                fs == spec_fields(fen@),
                fs.len() == 4,
                f0@ == fs[0],
                x <= 7,
                y <= 6,
                board_fold(fs[0], (0, 6, 0u64, 0u64, 0u64)) == board_fold(
                    f0@.subrange(j as int, m as int),
                    (x as int, y as int, black, white, walls),
                ),
            decreases m - j,
        {
            let ghost rest = f0@.subrange(j as int, m as int);
            let ghost stj = (x as int, y as int, black, white, walls);
            proof {
                assert(rest[0] == f0@[j as int]);
                assert(rest.subrange(1, rest.len() as int) =~= f0@.subrange(
                    j as int + 1,
                    m as int,
                ));
            }
            let c = f0.get_char(j);
            if c == 'x' || c == 'X' {
                if x <= 6 {
                    black = black | (1u64 << ((7 * y + x) as u64));
                    x = x + 1;
                } else {
                    return Err(FenError::RowTooLong);
                }
            } else if c == 'o' || c == 'O' {
                if x <= 6 {
                    white = white | (1u64 << ((7 * y + x) as u64));
                    x = x + 1;
                } else {
                    return Err(FenError::RowTooLong);
                }
            } else if c == '-' {
                if x <= 6 {
                    walls = walls | (1u64 << ((7 * y + x) as u64));
                    x = x + 1;
                } else {
                    return Err(FenError::RowTooLong);
                }
            } else {
                let v = c as u32;
                if 49 <= v && v <= 55 {
                    let d = (v - 48) as u8;
                    if x + d <= 7 {
                        x = x + d;
                    } else {
                        return Err(FenError::RowTooLong);
                    }
                } else if c == '/' {
                    if y >= 1 {
                        y = y - 1;
                        x = 0;
                    } else {
                        return Err(FenError::TooManyRows);
                    }
                } else {
                    return Err(FenError::BadBoardChar);
                }
            }
            proof {
                assert(board_step(stj, c) == Ok::<_, FenError>(
                    (x as int, y as int, black, white, walls),
                ));
            }
            j = j + 1;
        }

        // side-to-move field
        let f1 = fields[1];
        proof {
            assert(f1@ == fs[1]);
        }
        let turn: Side;
        if f1.unicode_len() == 1 {
            let c = f1.get_char(0);
            if c == 'x' || c == 'X' {
                turn = Side::Black;
            } else if c == 'o' || c == 'O' {
                turn = Side::White;
            } else {
                return Err(FenError::BadSideChar);
            }
        } else {
            return Err(FenError::BadSideChar);
        }

        // counters
        let halfmoves = match parse_u32_field(fields[2]) {
            Ok(v) => v,
            Err(e) => {
                proof {
                    assert(fields@[2]@ == fs[2]);
                }
                return Err(e);
            },
        };
        proof {
            assert(fields@[2]@ == fs[2]);
        }
        let fullmoves = match parse_u32_field(fields[3]) {
            Ok(v) => v,
            Err(e) => {
                proof {
                    assert(fields@[3]@ == fs[3]);
                }
                return Err(e);
            },
        };
        proof {
            assert(fields@[3]@ == fs[3]);
        }

        Ok(
            Position {
                black: Bitboard::new(black),
                white: Bitboard::new(white),
                walls: Bitboard::new(walls),
                turn,
                halfmoves,
                fullmoves,
            },
        )
    }
}

/// The digit character of `d`.
pub open spec fn char_of_digit(d: int) -> char {
    if d == 0 { '0' }
    else if d == 1 { '1' }
    else if d == 2 { '2' }
    else if d == 3 { '3' }
    else if d == 4 { '4' }
    else if d == 5 { '5' }
    else if d == 6 { '6' }
    else if d == 7 { '7' }
    else { if d == 8 { '8' } else { '9' } }
}

/// What the serializer writes for the cell in column `x` of row `y`:
/// a piece or wall mark, or nothing for an empty cell.
pub open spec fn spec_cell_char(p: Position, x: int, y: int) -> Option<char> {
    if has_bit(p.black.0, 7 * y + x) {
        Some('x')
    } else if has_bit(p.white.0, 7 * y + x) {
        Some('o')
    } else if has_bit(p.walls.0, 7 * y + x) {
        Some('-')
    } else {
        None
    }
}

/// The run-length-encoded text of row `y` from column `x` on, with
/// `pending` empty cells seen but not yet written.
pub open spec fn row_rle(p: Position, x: int, y: int, pending: int) -> Seq<char>
    decreases 7 - x,
{
    if x >= 7 {
        if pending > 0 {
            seq![char_of_digit(pending)]
        } else {
            Seq::empty()
        }
    } else {
        match spec_cell_char(p, x, y) {
            Some(c) => (if pending > 0 {
                seq![char_of_digit(pending), c]
            } else {
                seq![c]
            }) + row_rle(p, x + 1, y, 0),
            None => row_rle(p, x + 1, y, pending + 1),
        }
    }
}

/// The rows from `y` down to the bottom rank, separated by `/`.
pub open spec fn board_rows(p: Position, y: int) -> Seq<char>
    decreases y + 1,
{
    if y < 0 {
        Seq::empty()
    } else {
        row_rle(p, 0, y, 0) + (if y > 0 {
            seq!['/']
        } else {
            Seq::empty()
        }) + board_rows(p, y - 1)
    }
}

/// The letter of the side to move.
pub open spec fn spec_side_char(side: Side) -> char {
    match side {
        Side::Black => 'x',
        Side::White => 'o',
    }
}

/// The decimal text of `n`.
pub open spec fn dec_chars(n: int) -> Seq<char>
    decreases n,
{
    if n < 10 {
        seq![char_of_digit(n)]
    } else {
        dec_chars(n / 10) + seq![char_of_digit(n % 10)]
    }
}

/// What `Position::get_fen` writes: the seven rows from the top rank
/// down, then the side to move and the two counters, space-separated.
pub open spec fn spec_fen(p: Position) -> Seq<char> {
    board_rows(p, 6) + seq![' ', spec_side_char(p.turn), ' '] + dec_chars(p.halfmoves as int)
        + seq![' '] + dec_chars(p.fullmoves as int)
}

/// Appends one digit character.
fn push_digit(s: &mut String, d: u8)
    requires
        d <= 9,
    ensures
        final(s)@ == old(s)@ + seq![char_of_digit(d as int)],
{
    proof {
        reveal_strlit("0");
        reveal_strlit("1");
        reveal_strlit("2");
        reveal_strlit("3");
        reveal_strlit("4");
        reveal_strlit("5");
        reveal_strlit("6");
        reveal_strlit("7");
        reveal_strlit("8");
        reveal_strlit("9");
    }
    let t: &str = match d {
        0 => "0",
        1 => "1",
        2 => "2",
        3 => "3",
        4 => "4",
        5 => "5",
        6 => "6",
        7 => "7",
        8 => "8",
        _ => "9",
    };
    s.append(t);
    proof {
        assert(final(s)@ =~= old(s)@ + seq![char_of_digit(d as int)]);
    }
}

/// Appends the decimal text of `n`.
fn append_u32(s: &mut String, n: u32)
    ensures
        final(s)@ == old(s)@ + dec_chars(n as int),
    decreases n,
{
    if n >= 10 {
        append_u32(s, n / 10);
        push_digit(s, (n % 10) as u8);
        proof {
            assert(final(s)@ =~= old(s)@ + dec_chars(n as int));
        }
    } else {
        push_digit(s, n as u8);
    }
}

impl Position {
    /// Writes the board notation of this position, the inverse of
    /// `from_fen`.
    pub fn get_fen(&self) -> (r: String)
        ensures
            r@ == spec_fen(*self),
    {
        let ghost p = *self;
        proof {
            reveal_strlit("x");
            reveal_strlit("o");
            reveal_strlit("-");
            reveal_strlit("/");
            reveal_strlit(" ");
        }
        let mut fen = String::new();
        let mut yr: u8 = 0;
        while yr < 7
            invariant
                p == *self,
                yr <= 7,
                fen@ + board_rows(p, 6 - yr as int) == board_rows(p, 6),
            decreases 7 - yr,
        {
            let y: u8 = 6 - yr;
            let ghost base = fen@;
            let mut x: u8 = 0;
            let mut spaces: u8 = 0;
            while x < 7
                invariant
                    p == *self,
                    x <= 7,
                    spaces <= x,
                    yr < 7,
                    y == 6 - yr,
                    base + row_rle(p, 0, y as int, 0) == fen@ + row_rle(
                        p,
                        x as int,
                        y as int,
                        spaces as int,
                    ),
                decreases 7 - x,
            {
                proof {
                    reveal_strlit("x");
                    reveal_strlit("o");
                    reveal_strlit("-");
                }
                let idx: u8 = 7 * y + x;
                let ghost xo = x as int;
                let ghost so = spaces as int;
                let mark: Option<&str> = if self.black.is_set(idx) {
                    Some("x")
                } else if self.white.is_set(idx) {
                    Some("o")
                } else if self.walls.is_set(idx) {
                    Some("-")
                } else {
                    None
                };
                match mark {
                    Some(t) => {
                        if spaces > 0 {
                            push_digit(&mut fen, spaces);
                            spaces = 0;
                        }
                        fen.append(t);
                        proof {
                            assert(base + row_rle(p, 0, y as int, 0) =~= fen@ + row_rle(
                                p,
                                xo + 1,
                                y as int,
                                0,
                            ));
                        }
                    },
                    None => {
                        proof {
                            assert(spec_cell_char(p, xo, y as int) is None);
                            assert(row_rle(p, xo, y as int, so) == row_rle(
                                p,
                                xo + 1,
                                y as int,
                                so + 1,
                            ));
                        }
                        spaces = spaces + 1;
                    },
                }
                x = x + 1;
            }
            if spaces > 0 {
                push_digit(&mut fen, spaces);
            }
            proof {
                assert(fen@ =~= base + row_rle(p, 0, y as int, 0));
            }
            if y > 0 {
                proof {
                    reveal_strlit("/");
                }
                fen.append("/");
            }
            proof {
                assert(board_rows(p, y as int) == row_rle(p, 0, y as int, 0) + (if y > 0 {
                    seq!['/']
                } else {
                    Seq::<char>::empty()
                }) + board_rows(p, y as int - 1));
                assert(fen@ + board_rows(p, 6 - (yr + 1) as int) =~= board_rows(p, 6));
            }
            yr = yr + 1;
        }
        proof {
            reveal_strlit("x");
            reveal_strlit("o");
            reveal_strlit(" ");
        }
        fen.append(" ");
        let side: &str = match self.turn {
            Side::Black => "x",
            Side::White => "o",
        };
        fen.append(side);
        fen.append(" ");
        append_u32(&mut fen, self.halfmoves);
        fen.append(" ");
        append_u32(&mut fen, self.fullmoves);
        proof {
            assert(fen@ =~= spec_fen(p));
        }
        fen
    }
}

/// A character the board field may hold.
pub open spec fn is_board_char(c: char) -> bool {
    c == 'x' || c == 'o' || c == '-' || c == '/' || (49 <= (c as int) <= 55)
}

/// The digit characters written for 1 through 9 carry their value.
proof fn lemma_digit_char_val(d: int)
    requires
        0 <= d <= 9,
    ensures
        (char_of_digit(d) as int) == 48 + d,
{
}

/// Every character of a row's text is a board character, and a row
/// written from its start is never empty text.
proof fn lemma_row_chars(p: Position, x: int, y: int, pending: int)
    requires
        0 <= x <= 7,
        0 <= pending <= x,
    ensures
        pending > 0 || x < 7 ==> row_rle(p, x, y, pending).len() >= 1,
        forall|k: int| 0 <= k < row_rle(p, x, y, pending).len() ==> is_board_char(
            #[trigger] row_rle(p, x, y, pending)[k],
        ),
    decreases 7 - x,
{
    let r = row_rle(p, x, y, pending);
    if x >= 7 {
        if pending > 0 {
            lemma_digit_char_val(pending);
            assert(r[0] == char_of_digit(pending));
        }
    } else {
        match spec_cell_char(p, x, y) {
            Some(c) => {
                lemma_digit_char_val(pending);
                lemma_row_chars(p, x + 1, y, 0);
                let pre = if pending > 0 {
                    seq![char_of_digit(pending), c]
                } else {
                    seq![c]
                };
                let tail = row_rle(p, x + 1, y, 0);
                assert(r == pre + tail);
                assert(is_board_char(c));
                assert forall|k: int| 0 <= k < r.len() implies is_board_char(#[trigger] r[k]) by {
                    if k < pre.len() {
                        assert(r[k] == pre[k]);
                    } else {
                        assert(r[k] == tail[k - pre.len()]);
                        assert(is_board_char(tail[k - pre.len()]));
                    }
                }
            },
            None => {
                lemma_row_chars(p, x + 1, y, pending + 1);
            },
        }
    }
}

/// Every character of the whole board field is a board character, and
/// the field is never empty.
proof fn lemma_rows_chars(p: Position, y: int)
    requires
        -1 <= y <= 6,
    ensures
        forall|k: int| 0 <= k < board_rows(p, y).len() ==> is_board_char(
            #[trigger] board_rows(p, y)[k],
        ),
        y >= 0 ==> board_rows(p, y).len() >= 1,
    decreases y + 1,
{
    if y >= 0 {
        lemma_row_chars(p, 0, y, 0);
        lemma_rows_chars(p, y - 1);
        let r = board_rows(p, y);
        let row = row_rle(p, 0, y, 0);
        let sep: Seq<char> = if y > 0 {
            seq!['/']
        } else {
            Seq::empty()
        };
        let rest = board_rows(p, y - 1);
        assert(r == row + sep + rest);
        assert forall|k: int| 0 <= k < r.len() implies is_board_char(#[trigger] r[k]) by {
            if k < row.len() {
                assert(r[k] == row[k]);
            } else if k < row.len() + sep.len() {
                assert(r[k] == sep[k - row.len()]);
            } else {
                assert(r[k] == rest[k - row.len() - sep.len()]);
                assert(is_board_char(rest[k - row.len() - sep.len()]));
            }
        }
    }
}

/// Every character of a number's text is a digit, and the text is never
/// empty.
proof fn lemma_dec_chars_digits(n: int)
    requires
        0 <= n,
    ensures
        dec_chars(n).len() >= 1,
        forall|k: int| 0 <= k < dec_chars(n).len() ==> 48 <= (#[trigger] dec_chars(n)[k] as int)
            <= 57,
    decreases n,
{
    if n < 10 {
        lemma_digit_char_val(n);
        assert(dec_chars(n)[0] == char_of_digit(n));
    } else {
        vstd::arithmetic::div_mod::lemma_mod_bound(n, 10);
        vstd::arithmetic::div_mod::lemma_div_pos_is_pos(n, 10);
        lemma_digit_char_val(n % 10);
        lemma_dec_chars_digits(n / 10);
        let d = dec_chars(n);
        let pre = dec_chars(n / 10);
        assert(d == pre + seq![char_of_digit(n % 10)]);
        assert forall|k: int| 0 <= k < d.len() implies 48 <= (#[trigger] d[k] as int) <= 57 by {
            if k < pre.len() {
                assert(d[k] == pre[k]);
                assert(48 <= (pre[k] as int) <= 57);
            } else {
                assert(d[k] == char_of_digit(n % 10));
            }
        }
    }
}

/// Splitting text without spaces yields one field.
proof fn lemma_split_no_space(a: Seq<char>, cur: Seq<char>)
    requires
        forall|k: int| 0 <= k < a.len() ==> (#[trigger] a[k]) != ' ',
    ensures
        split_acc(a, cur) == seq![cur + a],
    decreases a.len(),
{
    if a.len() == 0 {
        assert(cur + a =~= cur);
    } else {
        let rest = a.subrange(1, a.len() as int);
        assert forall|k: int| 0 <= k < rest.len() implies (#[trigger] rest[k]) != ' ' by {
            assert(rest[k] == a[k + 1]);
        }
        lemma_split_no_space(rest, cur.push(a[0]));
        assert(cur.push(a[0]) + rest =~= cur + a);
    }
}

/// Splitting `a`, a space, then `rest` yields the field `a` and then the
/// fields of `rest`.
proof fn lemma_split_field(a: Seq<char>, rest: Seq<char>, cur: Seq<char>)
    requires
        forall|k: int| 0 <= k < a.len() ==> (#[trigger] a[k]) != ' ',
    ensures
        split_acc(a + seq![' '] + rest, cur) == seq![cur + a] + split_acc(rest, Seq::empty()),
    decreases a.len(),
{
    let s = a + seq![' '] + rest;
    if a.len() == 0 {
        assert(s[0] == ' ');
        assert(s.subrange(1, s.len() as int) =~= rest);
        assert(cur + a =~= cur);
    } else {
        assert(s[0] == a[0]);
        let a1 = a.subrange(1, a.len() as int);
        assert forall|k: int| 0 <= k < a1.len() implies (#[trigger] a1[k]) != ' ' by {
            assert(a1[k] == a[k + 1]);
        }
        lemma_split_field(a1, rest, cur.push(a[0]));
        assert(s.subrange(1, s.len() as int) =~= a1 + seq![' '] + rest);
        assert(cur.push(a[0]) + a1 =~= cur + a);
    }
}

/// The decimal text of `n` reads back as `n`.
proof fn lemma_dec_inverse(n: int)
    requires
        0 <= n,
    ensures
        digits_val(dec_chars(n)) == n,
        all_digits(dec_chars(n)),
    decreases n,
{
    lemma_dec_chars_digits(n);
    if n < 10 {
        lemma_digit_char_val(n);
        assert(dec_chars(n).drop_last() =~= Seq::<char>::empty());
        assert(dec_chars(n).last() == char_of_digit(n));
        assert(digits_val(dec_chars(n)) == digits_val(Seq::<char>::empty()) * 10 + ((char_of_digit(
            n,
        ) as int) - 48));
    } else {
        vstd::arithmetic::div_mod::lemma_mod_bound(n, 10);
        vstd::arithmetic::div_mod::lemma_div_pos_is_pos(n, 10);
        lemma_dec_inverse(n / 10);
        lemma_digit_char_val(n % 10);
        let d = dec_chars(n);
        assert(d.drop_last() =~= dec_chars(n / 10));
        assert(d.last() == char_of_digit(n % 10));
        assert(digits_val(d) == digits_val(dec_chars(n / 10)) * 10 + ((char_of_digit(n % 10)
            as int) - 48));
        vstd::arithmetic::div_mod::lemma_fundamental_div_mod(n, 10);
    }
}

/// The board `b` holds exactly the cells of `pb` that lie in the region
/// the parser has passed.
pub open spec fn match_region(b: u64, pb: u64, x: int, y: int) -> bool {
    forall|i: int| #[trigger] has_bit(b, i) <==> (has_bit(pb, i) && region(i, x, y))
}

/// Folding a concatenation folds the first part, then the second.
proof fn lemma_fold_append(a: Seq<char>, b: Seq<char>, st: (int, int, u64, u64, u64))
    ensures
        board_fold(a + b, st) == (match board_fold(a, st) {
            Ok(st2) => board_fold(b, st2),
            Err(e) => Err(e),
        }),
    decreases a.len(),
{
    if a.len() == 0 {
        assert(a + b =~= b);
    } else {
        let s = a + b;
        assert(s[0] == a[0]);
        assert(s.subrange(1, s.len() as int) =~= a.subrange(1, a.len() as int) + b);
        match board_step(st, a[0]) {
            Ok(st2) => {
                lemma_fold_append(a.subrange(1, a.len() as int), b, st2);
            },
            Err(e) => {
            },
        }
    }
}

/// Skipping columns that hold no cell keeps the match, with the region
/// boundary moved right across them.
proof fn lemma_region_skip(p: Position, b2: u64, b3: u64, b4: u64, x1: int, x2: int, y: int)
    requires
        0 <= x1 <= x2 <= 7,
        0 <= y <= 6,
        match_region(b2, p.black.0, x1, y),
        match_region(b3, p.white.0, x1, y),
        match_region(b4, p.walls.0, x1, y),
        forall|t: int| x1 <= t < x2 ==> (#[trigger] spec_cell_char(p, t, y)) is None,
    ensures
        match_region(b2, p.black.0, x2, y),
        match_region(b3, p.white.0, x2, y),
        match_region(b4, p.walls.0, x2, y),
{
    lemma_region_skip_one(p, b2, p.black.0, x1, x2, y);
    lemma_region_skip_one(p, b3, p.white.0, x1, x2, y);
    lemma_region_skip_one(p, b4, p.walls.0, x1, x2, y);
}

/// `lemma_region_skip` for one board.
proof fn lemma_region_skip_one(p: Position, b: u64, pb: u64, x1: int, x2: int, y: int)
    requires
        0 <= x1 <= x2 <= 7,
        0 <= y <= 6,
        pb == p.black.0 || pb == p.white.0 || pb == p.walls.0,
        match_region(b, pb, x1, y),
        forall|t: int| x1 <= t < x2 ==> (#[trigger] spec_cell_char(p, t, y)) is None,
    ensures
        match_region(b, pb, x2, y),
{
    assert forall|i: int| #[trigger] has_bit(b, i) <==> (has_bit(pb, i) && region(i, x2, y)) by {
        if 0 <= i < 49 {
            lemma_square_coords(i);
            if has_bit(pb, i) && region(i, x2, y) && !region(i, x1, y) {
                let t = file_of(i);
                assert(rank_of(i) == y && x1 <= t < x2);
                assert(spec_cell_char(p, t, y) is None);
                assert(i == 7 * y + t);
                assert(!has_bit(pb, i));
            }
        }
    }
}

/// Moving to the next row keeps the match: the region right of the whole
/// row equals the region right of nothing on the row below.
proof fn lemma_region_newline(b: u64, pb: u64, y: int)
    requires
        match_region(b, pb, 7, y),
    ensures
        match_region(b, pb, 0, y - 1),
{
    assert forall|i: int| #[trigger] has_bit(b, i) <==> (has_bit(pb, i) && region(i, 0, y - 1)) by {
        if 0 <= i < 49 {
            lemma_square_coords(i);
        }
    }
}

/// Adding the cell the parser just read extends the match by one column.
proof fn lemma_match_add(b: u64, pb: u64, x: int, y: int)
    requires
        0 <= x <= 6,
        0 <= y <= 6,
        match_region(b, pb, x, y),
        has_bit(pb, 7 * y + x),
    ensures
        match_region(b | (1u64 << ((7 * y + x) as u64)), pb, x + 1, y),
{
    let i0 = 7 * y + x;
    let cell = 1u64 << (i0 as u64);
    lemma_index_coords(x, y);
    assert forall|i: int| #[trigger] has_bit(b | cell, i) <==> (has_bit(pb, i) && region(
        i,
        x + 1,
        y,
    )) by {
        if 0 <= i < 49 {
            lemma_bitop_bits(b, cell, i as u64);
            lemma_single_bit(i0 as u64, i as u64);
            assert(has_bit(cell, i) <==> i == i0);
            assert(has_bit(b | cell, i) <==> (has_bit(b, i) || i == i0));
            assert(has_bit(b, i) <==> (has_bit(pb, i) && region(i, x, y)));
            lemma_square_coords(i);
            if i != i0 && region(i, x + 1, y) && !region(i, x, y) {
                assert(rank_of(i) == y && file_of(i) == x);
                assert(i == i0);
            }
        }
    }
}

/// A column whose cell belongs to another board leaves this board's
/// match intact as the boundary moves past it.
proof fn lemma_match_keep(b: u64, pb: u64, x: int, y: int)
    requires
        0 <= x <= 6,
        0 <= y <= 6,
        match_region(b, pb, x, y),
        !has_bit(pb, 7 * y + x),
    ensures
        match_region(b, pb, x + 1, y),
{
    lemma_index_coords(x, y);
    assert forall|i: int| #[trigger] has_bit(b, i) <==> (has_bit(pb, i) && region(i, x + 1, y)) by {
        if 0 <= i < 49 {
            lemma_square_coords(i);
            if has_bit(pb, i) && region(i, x + 1, y) && !region(i, x, y) {
                assert(rank_of(i) == y && file_of(i) == x);
                assert(i == 7 * y + x);
            }
        }
    }
}

/// Parsing the text of one row from the matching parser state completes
/// the row: the parser reaches the row's right edge with every cell of
/// the row accounted for.
proof fn lemma_row_inverse(p: Position, x: int, y: int, pending: int, b2: u64, b3: u64, b4: u64)
    requires
        p.wf(),
        0 <= y <= 6,
        0 <= pending <= x <= 7,
        match_region(b2, p.black.0, x - pending, y),
        match_region(b3, p.white.0, x - pending, y),
        match_region(b4, p.walls.0, x - pending, y),
        forall|t: int| x - pending <= t < x ==> (#[trigger] spec_cell_char(p, t, y)) is None,
    ensures
        ({
            let r = board_fold(row_rle(p, x, y, pending), (x - pending, y, b2, b3, b4));
            &&& r is Ok
            &&& r->Ok_0.0 == 7
            &&& r->Ok_0.1 == y
            &&& match_region(r->Ok_0.2, p.black.0, 7, y)
            &&& match_region(r->Ok_0.3, p.white.0, 7, y)
            &&& match_region(r->Ok_0.4, p.walls.0, 7, y)
        }),
    decreases 7 - x,
{
    let st = (x - pending, y, b2, b3, b4);
    let text = row_rle(p, x, y, pending);
    if x >= 7 {
        if pending > 0 {
            lemma_digit_char_val(pending);
            assert(text == seq![char_of_digit(pending)]);
            assert(text[0] == char_of_digit(pending));
            assert(board_step(st, text[0]) == Ok::<(int, int, u64, u64, u64), FenError>(
                (7, y, b2, b3, b4),
            ));
            assert(text.subrange(1, 1) =~= Seq::<char>::empty());
            assert(board_fold(Seq::<char>::empty(), (7int, y, b2, b3, b4)) == Ok::<
                (int, int, u64, u64, u64),
                FenError,
            >((7int, y, b2, b3, b4)));
            assert(board_fold(text, st) == Ok::<(int, int, u64, u64, u64), FenError>(
                (7int, y, b2, b3, b4),
            ));
            lemma_region_skip(p, b2, b3, b4, x - pending, 7, y);
        } else {
            assert(board_fold(text, st) == Ok::<(int, int, u64, u64, u64), FenError>(st));
        }
    } else {
        match spec_cell_char(p, x, y) {
            Some(c) => {
                lemma_digit_char_val(pending);
                let pre: Seq<char> = if pending > 0 {
                    seq![char_of_digit(pending), c]
                } else {
                    seq![c]
                };
                let tail = row_rle(p, x + 1, y, 0);
                assert(text == pre + tail);
                lemma_fold_append(pre, tail, st);
                lemma_region_skip(p, b2, b3, b4, x - pending, x, y);
                let stx = (x, y, b2, b3, b4);
                if pending > 0 {
                    assert(pre[0] == char_of_digit(pending));
                    assert(board_step(st, pre[0]) == Ok::<(int, int, u64, u64, u64), FenError>(
                        stx,
                    ));
                    assert(pre.subrange(1, 2) =~= seq![c]);
                }
                let i0 = 7 * y + x;
                let nb2: u64 = if c == 'x' {
                    b2 | (1u64 << (i0 as u64))
                } else {
                    b2
                };
                let nb3: u64 = if c == 'o' {
                    b3 | (1u64 << (i0 as u64))
                } else {
                    b3
                };
                let nb4: u64 = if c == '-' {
                    b4 | (1u64 << (i0 as u64))
                } else {
                    b4
                };
                lemma_disjoint_bits(p.black.0, p.white.0);
                lemma_disjoint_bits(p.black.0, p.walls.0);
                lemma_disjoint_bits(p.white.0, p.walls.0);
                lemma_index_coords(x, y);
                if c == 'x' {
                    assert(has_bit(p.black.0, i0));
                    lemma_match_add(b2, p.black.0, x, y);
                    lemma_match_keep(b3, p.white.0, x, y);
                    lemma_match_keep(b4, p.walls.0, x, y);
                } else if c == 'o' {
                    assert(has_bit(p.white.0, i0));
                    lemma_match_keep(b2, p.black.0, x, y);
                    lemma_match_add(b3, p.white.0, x, y);
                    lemma_match_keep(b4, p.walls.0, x, y);
                } else {
                    assert(c == '-');
                    assert(has_bit(p.walls.0, i0));
                    lemma_match_keep(b2, p.black.0, x, y);
                    lemma_match_keep(b3, p.white.0, x, y);
                    lemma_match_add(b4, p.walls.0, x, y);
                }
                let stn = (x + 1, y, nb2, nb3, nb4);
                assert(board_step(stx, c) == Ok::<(int, int, u64, u64, u64), FenError>(stn));
                assert(board_fold(seq![c], stx) == Ok::<(int, int, u64, u64, u64), FenError>(
                    stn,
                )) by {
                    assert(seq![c][0] == c);
                    assert(seq![c].subrange(1, 1) =~= Seq::<char>::empty());
                    assert(board_fold(Seq::<char>::empty(), stn)
                        == Ok::<(int, int, u64, u64, u64), FenError>(stn));
                }
                if pending > 0 {
                    assert(pre.subrange(1, 2) =~= seq![c]);
                    assert(board_fold(pre, st) == board_fold(pre.subrange(1, 2), stx));
                } else {
                    assert(pre =~= seq![c]);
                }
                assert(board_fold(pre, st) == Ok::<(int, int, u64, u64, u64), FenError>(stn));
                lemma_row_inverse(p, x + 1, y, 0, nb2, nb3, nb4);
                assert(board_fold(text, st) == board_fold(tail, stn));
            },
            None => {
                assert(text == row_rle(p, x + 1, y, pending + 1));
                lemma_row_inverse(p, x + 1, y, pending + 1, b2, b3, b4);
            },
        }
    }
}

/// Parsing the rows from `y` down from a matching state completes the
/// whole remaining board.
proof fn lemma_rows_inverse(p: Position, y: int, b2: u64, b3: u64, b4: u64)
    requires
        p.wf(),
        0 <= y <= 6,
        match_region(b2, p.black.0, 0, y),
        match_region(b3, p.white.0, 0, y),
        match_region(b4, p.walls.0, 0, y),
    ensures
        ({
            let r = board_fold(board_rows(p, y), (0, y, b2, b3, b4));
            &&& r is Ok
            &&& r->Ok_0.0 == 7
            &&& r->Ok_0.1 == 0
            &&& match_region(r->Ok_0.2, p.black.0, 7, 0)
            &&& match_region(r->Ok_0.3, p.white.0, 7, 0)
            &&& match_region(r->Ok_0.4, p.walls.0, 7, 0)
        }),
    decreases y,
{
    let st = (0, y, b2, b3, b4);
    let row = row_rle(p, 0, y, 0);
    let sep: Seq<char> = if y > 0 {
        seq!['/']
    } else {
        Seq::empty()
    };
    let rest = board_rows(p, y - 1);
    assert(board_rows(p, y) == row + sep + rest);
    lemma_row_inverse(p, 0, y, 0, b2, b3, b4);
    let r1 = board_fold(row, st)->Ok_0;
    assert(row + sep + rest =~= row + (sep + rest));
    lemma_fold_append(row, sep + rest, st);
    if y > 0 {
        assert((sep + rest)[0] == '/');
        assert((sep + rest).subrange(1, (sep + rest).len() as int) =~= rest);
        let r2 = (0int, y - 1, r1.2, r1.3, r1.4);
        assert(board_step(r1, '/') == Ok::<(int, int, u64, u64, u64), FenError>(r2));
        lemma_region_newline(r1.2, p.black.0, y);
        lemma_region_newline(r1.3, p.white.0, y);
        lemma_region_newline(r1.4, p.walls.0, y);
        lemma_rows_inverse(p, y - 1, r1.2, r1.3, r1.4);
    } else {
        assert(sep + rest =~= Seq::<char>::empty());
    }
}

/// Round trip: reading back the notation written for any valid position
/// yields that position again.  So on every string the serializer
/// produces, parsing then serialising returns the string itself.
pub proof fn lemma_fen_round_trip(p: Position)
    requires
        p.wf(),
    ensures
        spec_parse_fen(spec_fen(p)) == Ok::<Position, FenError>(p),
{
    let s = spec_fen(p);
    let board = board_rows(p, 6);
    let sidec = spec_side_char(p.turn);
    let dh = dec_chars(p.halfmoves as int);
    let df = dec_chars(p.fullmoves as int);
    lemma_rows_chars(p, 6);
    lemma_dec_chars_digits(p.halfmoves as int);
    lemma_dec_chars_digits(p.fullmoves as int);

    // the sentinel never matches: the first character is board text
    assert(s[0] == board[0]);
    assert(is_board_char(board[0]));
    assert(!is_startpos(s));

    // the four fields
    let rest2 = dh + seq![' '] + df;
    let rest1 = seq![sidec] + seq![' '] + rest2;
    assert(s =~= board + seq![' '] + rest1);
    assert forall|k: int| 0 <= k < board.len() implies (#[trigger] board[k]) != ' ' by {
        assert(is_board_char(board[k]));
    }
    lemma_split_field(board, rest1, Seq::empty());
    assert forall|k: int| 0 <= k < seq![sidec].len() implies (#[trigger] seq![sidec][k])
        != ' ' by {}
    lemma_split_field(seq![sidec], rest2, Seq::empty());
    assert forall|k: int| 0 <= k < dh.len() implies (#[trigger] dh[k]) != ' ' by {}
    lemma_split_field(dh, df, Seq::empty());
    assert forall|k: int| 0 <= k < df.len() implies (#[trigger] df[k]) != ' ' by {}
    lemma_split_no_space(df, Seq::empty());
    let fs = spec_fields(s);
    assert(Seq::<char>::empty() + board =~= board);
    assert(Seq::<char>::empty() + seq![sidec] =~= seq![sidec]);
    assert(Seq::<char>::empty() + dh =~= dh);
    assert(Seq::<char>::empty() + df =~= df);
    assert(fs =~= seq![board] + (seq![seq![sidec]] + (seq![dh] + seq![df])));
    assert(fs.len() == 4);
    assert(fs[0] == board && fs[1] == seq![sidec] && fs[2] == dh && fs[3] == df);

    // the board field reconstructs the three boards
    assert(match_region(0u64, p.black.0, 0, 6) && match_region(0u64, p.white.0, 0, 6)
        && match_region(0u64, p.walls.0, 0, 6)) by {
        assert forall|i: int| !(#[trigger] has_bit(0u64, i)) by {
            if 0 <= i < 49 {
                lemma_bitop_bits(0, 0, i as u64);
            }
        }
        assert forall|i: int| 0 <= i < 49 implies !region(i, 0, 6) by {
            lemma_square_coords(i);
        }
        assert forall|i: int| #[trigger] has_bit(0u64, i) <==> (has_bit(p.black.0, i) && region(
            i,
            0,
            6,
        )) by {
            if 0 <= i < 49 {
                lemma_square_coords(i);
            }
        }
        assert forall|i: int| #[trigger] has_bit(0u64, i) <==> (has_bit(p.white.0, i) && region(
            i,
            0,
            6,
        )) by {
            if 0 <= i < 49 {
                lemma_square_coords(i);
            }
        }
        assert forall|i: int| #[trigger] has_bit(0u64, i) <==> (has_bit(p.walls.0, i) && region(
            i,
            0,
            6,
        )) by {
            if 0 <= i < 49 {
                lemma_square_coords(i);
            }
        }
    }
    lemma_rows_inverse(p, 6, 0, 0, 0);
    let st0 = (0int, 6int, 0u64, 0u64, 0u64);
    let st = board_fold(board, st0)->Ok_0;
    assert(acc_inv(st0)) by {
        assert forall|i: int| !(#[trigger] has_bit(0u64, i)) by {
            if 0 <= i < 49 {
                lemma_bitop_bits(0, 0, i as u64);
            }
        }
    }
    lemma_fold_inv(board, st0);
    assert forall|i: int| has_bit(st.2, i) <==> has_bit(p.black.0, i) by {
        lemma_match_full(st.2, p.black.0, i);
    }
    assert forall|i: int| has_bit(st.3, i) <==> has_bit(p.white.0, i) by {
        lemma_match_full(st.3, p.white.0, i);
    }
    assert forall|i: int| has_bit(st.4, i) <==> has_bit(p.walls.0, i) by {
        lemma_match_full(st.4, p.walls.0, i);
    }
    crate::bitboard::lemma_board_eq(st.2, p.black.0);
    crate::bitboard::lemma_board_eq(st.3, p.white.0);
    crate::bitboard::lemma_board_eq(st.4, p.walls.0);

    // side and counters read back
    assert(parse_side(fs[1]) == Ok::<Side, FenError>(p.turn));
    lemma_dec_inverse(p.halfmoves as int);
    lemma_dec_inverse(p.fullmoves as int);
    assert(parse_counter(fs[2]) == Ok::<u32, FenError>(p.halfmoves));
    assert(parse_counter(fs[3]) == Ok::<u32, FenError>(p.fullmoves));

    assert(spec_parse_fen(s)->Ok_0 == p);
}

/// For any text the serializer can produce, parsing it and serialising
/// again returns the text itself.
pub proof fn lemma_parse_then_serialize(t: Seq<char>, q: Position)
    requires
        q.wf(),
        t == spec_fen(q),
    ensures
        spec_parse_fen(t) is Ok,
        spec_fen(spec_parse_fen(t)->Ok_0) == t,
{
    lemma_fen_round_trip(q);
}

/// A full match (region boundary past the last cell of the bottom row)
/// is equality of cells.
proof fn lemma_match_full(b: u64, pb: u64, i: int)
    requires
        match_region(b, pb, 7, 0),
    ensures
        has_bit(b, i) <==> has_bit(pb, i),
{
    if 0 <= i < 49 {
        lemma_square_coords(i);
        assert(region(i, 7, 0));
    }
}

/// Reads a decimal counter field.
fn parse_u32_field(s: &str) -> (r: Result<u32, FenError>)
    ensures
        r == parse_counter(s@),
{
    let n = s.unicode_len();
    if n == 0 {
        return Err(FenError::BadCounter);
    }
    let mut acc: u64 = 0;
    let mut i: usize = 0;
    while i < n
        invariant
            n == s@.len(),
            n >= 1,
            i <= n,
            acc == digits_val(s@.subrange(0, i as int)),
            acc <= 0xFFFF_FFFFu64,
            forall|k: int| 0 <= k < i ==> 48 <= (#[trigger] s@[k] as int) <= 57,
        decreases n - i,
    {
        let c = s.get_char(i);
        let v = c as u32;
        if v < 48 || v > 57 {
            return Err(FenError::BadCounter);
        }
        proof {
            assert(s@.subrange(0, i as int + 1).drop_last() =~= s@.subrange(0, i as int));
            assert(s@.subrange(0, i as int + 1).last() == s@[i as int]);
        }
        acc = acc * 10 + ((v - 48) as u64);
        if acc > 0xFFFF_FFFF {
            proof {
                if all_digits(s@) {
                    lemma_digits_val_grows(s@, i as int + 1);
                }
            }
            return Err(FenError::BadCounter);
        }
        i = i + 1;
    }
    proof {
        assert(s@.subrange(0, n as int) =~= s@);
    }
    Ok(acc as u32)
}

/// A longer digit prefix never has a smaller value, so once a prefix
/// overflows the counter the whole field does.
proof fn lemma_digits_val_grows(s: Seq<char>, i: int)
    requires
        0 <= i <= s.len(),
        all_digits(s),
    ensures
        digits_val(s) >= digits_val(s.subrange(0, i)),
        digits_val(s) >= 0,
    decreases s.len() - i,
{
    lemma_digits_val_nonneg(s.subrange(0, i));
    if i < s.len() {
        lemma_digits_val_grows(s, i + 1);
        assert(s.subrange(0, i + 1).drop_last() =~= s.subrange(0, i));
        assert(s.subrange(0, i + 1).last() == s[i]);
        lemma_digits_val_nonneg(s.subrange(0, i));
    } else {
        assert(s.subrange(0, i) =~= s);
    }
}

/// A digit string's value is non-negative.
proof fn lemma_digits_val_nonneg(s: Seq<char>)
    requires
        forall|k: int| 0 <= k < s.len() ==> 48 <= (#[trigger] s[k] as int) <= 57,
    ensures
        digits_val(s) >= 0,
    decreases s.len(),
{
    if s.len() > 0 {
        lemma_digits_val_nonneg(s.drop_last());
    }
}

} // verus!
