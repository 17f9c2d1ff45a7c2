//! A 49-bit set of board cells packed into a `u64`.
//!
//! Bits 0 through 48 stand for the 49 cells in index order; bits 49 through
//! 63 are always zero on a well-formed board.  The geometric operators
//! (directional shifts, one-step and two-step neighborhoods) suppress any
//! wraparound across the board's left and right edges with per-direction
//! column masks.

use vstd::prelude::*;
use vstd::arithmetic::div_mod::{lemma_fundamental_div_mod, lemma_fundamental_div_mod_converse, lemma_mod_bound};
use crate::squares::{Square, file_of, rank_of};

verus! {

/// All 49 cells.
pub const FULL_BOARD: u64 = 0x1FFFFFFFFFFFF;

/// Every cell except column `a`; the target mask of an eastward step.
pub const NOT_FILE_A: u64 = 0x1FBF7EFDFBF7E;

/// Every cell except column `g`; the target mask of a westward step.
pub const NOT_FILE_G: u64 = 0xFDFBF7EFDFBF;

/// Every cell except columns `a` and `b`; the target mask of a two-east step.
pub const NOT_FILE_AB: u64 = 0x1F3E7CF9F3E7C;

/// Every cell except columns `f` and `g`; the target mask of a two-west step.
pub const NOT_FILE_FG: u64 = 0x7CF9F3E7CF9F;

/// Cell `i` of the packed word `b` is set.  False off the board.
pub open spec fn has_bit(b: u64, i: int) -> bool {
    0 <= i < 49 && ((b >> (i as u64)) & 1u64) == 1u64
}

/// The one-step neighborhood formula: every king-step from a cell of `b`,
/// with column wraparound suppressed per horizontal direction.
pub open spec fn spec_singles(b: u64) -> u64 {
    ((b << 7u64) | (b >> 7u64)) & FULL_BOARD
        | ((b >> 1u64) | (b >> 8u64) | (b << 6u64)) & NOT_FILE_G
        | ((b << 1u64) | (b >> 6u64) | (b << 8u64)) & NOT_FILE_A
}

/// The two-step neighborhood formula: every cell at king-distance exactly
/// two from a cell of `b`, grouped by how far east or west it lands.
pub open spec fn spec_doubles(b: u64) -> u64 {
    ((b << 16u64) | (b << 9u64) | (b << 2u64) | (b >> 5u64) | (b >> 12u64)) & NOT_FILE_AB
        | ((b << 15u64) | (b >> 13u64)) & NOT_FILE_A
        | ((b << 14u64) | (b >> 14u64)) & FULL_BOARD
        | ((b << 13u64) | (b >> 15u64)) & NOT_FILE_G
        | ((b << 12u64) | (b << 5u64) | (b >> 2u64) | (b >> 9u64) | (b >> 16u64)) & NOT_FILE_FG
}

/// The union of the one-step and two-step neighborhoods.
pub open spec fn spec_reach(b: u64) -> u64 {
    spec_singles(b) | spec_doubles(b)
}

/// Number of set bits of `b` below position `n`.
pub open spec fn popcount(b: u64, n: nat) -> nat
    decreases n,
{
    if n == 0 {
        0
    } else {
        popcount(b, (n - 1) as nat) + (if ((b >> (((n - 1) as nat) as u64)) & 1u64) == 1u64 {
            1nat
        } else {
            0nat
        })
    }
}

/// The absolute value of `x`.
pub open spec fn abs_val(x: int) -> int {
    if x < 0 { -x } else { x }
}

/// The larger of `a` and `b`.
pub open spec fn max_val(a: int, b: int) -> int {
    if a < b { b } else { a }
}

/// King-move distance between cell indices `i` and `j`: the larger of the
/// column distance and the row distance.
pub open spec fn king_dist(i: int, j: int) -> int {
    max_val(abs_val(file_of(i) - file_of(j)), abs_val(rank_of(i) - rank_of(j)))
}

/// A cell index split into its column and row.
pub proof fn lemma_square_coords(i: int)
    requires
        0 <= i < 49,
    ensures
        i == 7 * rank_of(i) + file_of(i),
        0 <= file_of(i) < 7,
        0 <= rank_of(i) < 7,
{
    lemma_fundamental_div_mod(i, 7);
    lemma_mod_bound(i, 7);
}

/// The column and row of the index `7 * y + x`.
pub proof fn lemma_index_coords(x: int, y: int)
    requires
        0 <= x < 7,
        0 <= y < 7,
    ensures
        file_of(7 * y + x) == x,
        rank_of(7 * y + x) == y,
{
    lemma_fundamental_div_mod_converse(7 * y + x, 7, y, x);
}

/// Bits of the boolean operations on packed words.
pub proof fn lemma_bitop_bits(a: u64, b: u64, i: u64)
    by (bit_vector)
    requires
        i < 64,
    ensures
        (((a & b) >> i) & 1u64) == 1u64 <==> ((a >> i) & 1u64) == 1u64 && ((b >> i) & 1u64)
            == 1u64,
        (((a | b) >> i) & 1u64) == 1u64 <==> ((a >> i) & 1u64) == 1u64 || ((b >> i) & 1u64)
            == 1u64,
        (((a ^ b) >> i) & 1u64) == 1u64 <==> (((a >> i) & 1u64) == 1u64) != (((b >> i) & 1u64)
            == 1u64),
        ((((!a) & FULL_BOARD) >> i) & 1u64) == 1u64 <==> (i < 49 && ((a >> i) & 1u64) != 1u64),
        ((FULL_BOARD >> i) & 1u64) == 1u64 <==> i < 49,
        ((0u64 >> i) & 1u64) != 1u64,
{
}

/// Boolean operations stay inside the 49-bit board.
pub proof fn lemma_bitop_wf(a: u64, b: u64)
    by (bit_vector)
    ensures
        (a & b) <= a,
        a <= FULL_BOARD && b <= FULL_BOARD ==> (a | b) <= FULL_BOARD,
        a <= FULL_BOARD && b <= FULL_BOARD ==> (a ^ b) <= FULL_BOARD,
        ((!a) & FULL_BOARD) <= FULL_BOARD,
        a <= FULL_BOARD ==> (a & b) <= FULL_BOARD,
        a & b == b & a,
        a | a == a,
{
}

/// One step of reading a word bit by bit from below position `n`.
proof fn lemma_shr_unfold(a: u64, n: u64)
    by (bit_vector)
    requires
        n < 49,
    ensures
        a >> n == ((a >> ((n + 1) as u64)) << 1u64) | ((a >> n) & 1u64),
        ((a >> n) & 1u64) == 0u64 || ((a >> n) & 1u64) == 1u64,
        a >> 0u64 == a,
{
}

/// A board word has nothing at or above position 49.
proof fn lemma_high_zero(a: u64, i: u64)
    by (bit_vector)
    requires
        a <= FULL_BOARD,
        49 <= i < 64,
    ensures
        a >> 49u64 == 0u64,
        ((a >> i) & 1u64) != 1u64,
{
}

/// Words that agree above position `n` and on every bit below it are equal.
proof fn lemma_bits_ext_rec(a: u64, b: u64, n: u64)
    requires
        n <= 49,
        a >> n == b >> n,
        forall|i: u64| i < n ==> ((#[trigger] ((a >> i) & 1u64)) == 1u64 <==> ((b >> i) & 1u64)
            == 1u64),
    ensures
        a == b,
    decreases n,
{
    if n == 0 {
        lemma_shr_unfold(a, 0);
        lemma_shr_unfold(b, 0);
    } else {
        let m = (n - 1) as u64;
        lemma_shr_unfold(a, m);
        lemma_shr_unfold(b, m);
        assert(((a >> m) & 1u64) == ((b >> m) & 1u64));
        lemma_bits_ext_rec(a, b, m);
    }
}

/// Two board words with the same cells are equal.
pub proof fn lemma_board_eq(a: u64, b: u64)
    requires
        a <= FULL_BOARD,
        b <= FULL_BOARD,
        forall|i: int| has_bit(a, i) <==> has_bit(b, i),
    ensures
        a == b,
{
    lemma_high_zero(a, 49);
    lemma_high_zero(b, 49);
    assert forall|i: u64| i < 49 implies ((#[trigger] ((a >> i) & 1u64)) == 1u64 <==> ((b >> i)
        & 1u64) == 1u64) by {
        assert(has_bit(a, i as int) <==> has_bit(b, i as int));
    }
    lemma_bits_ext_rec(a, b, 49);
}

/// A word inside the board with no set cell is zero; one with every cell
/// set is the full board.
pub proof fn lemma_board_bits(a: u64)
    requires
        a <= FULL_BOARD,
    ensures
        (a == 0) <==> (forall|i: int| !has_bit(a, i)),
        (a == FULL_BOARD) <==> (forall|i: int| 0 <= i < 49 ==> has_bit(a, i)),
{
    if forall|i: int| !has_bit(a, i) {
        assert forall|i: u64| i < 49 implies ((#[trigger] ((a >> i) & 1u64)) == 1u64 <==> ((0u64
            >> i) & 1u64) == 1u64) by {
            assert(!has_bit(a, i as int));
            lemma_bitop_bits(0, 0, i);
        }
        lemma_high_zero(a, 49);
        lemma_high_zero(0, 49);
        lemma_bits_ext_rec(a, 0, 49);
    }
    if a == 0 {
        assert forall|i: int| !(#[trigger] has_bit(a, i)) by {
            if 0 <= i < 49 {
                lemma_bitop_bits(0, 0, i as u64);
            }
        }
    }
    if forall|i: int| 0 <= i < 49 ==> has_bit(a, i) {
        assert forall|i: u64| i < 49 implies ((#[trigger] ((a >> i) & 1u64)) == 1u64 <==> ((
        FULL_BOARD >> i) & 1u64) == 1u64) by {
            assert(has_bit(a, i as int));
            lemma_bitop_bits(FULL_BOARD, 0, i);
        }
        lemma_high_zero(a, 49);
        lemma_high_zero(FULL_BOARD, 49);
        lemma_bits_ext_rec(a, FULL_BOARD, 49);
    }
    if a == FULL_BOARD {
        assert forall|i: int| 0 <= i < 49 implies #[trigger] has_bit(a, i) by {
            lemma_bitop_bits(FULL_BOARD, 0, i as u64);
        }
    }
}

/// Destination-centred reading of the one-step neighborhood: cell `i` is a
/// king-step away from a cell of `b`, written by the index offset and the
/// column guard of each of the eight directions.
pub open spec fn singles_cases(b: u64, i: int) -> bool {
    ||| (i >= 7 && has_bit(b, i - 7))
    ||| has_bit(b, i + 7)
    ||| (i % 7 != 0 && (has_bit(b, i - 1) || has_bit(b, i - 8) || has_bit(b, i + 6)))
    ||| (i % 7 != 6 && (has_bit(b, i + 1) || has_bit(b, i - 6) || has_bit(b, i + 8)))
}

/// Destination-centred reading of the two-step neighborhood: cell `i` is at
/// king-distance exactly two from a cell of `b`, grouped by the column
/// offset of the source relative to the destination.
pub open spec fn doubles_cases(b: u64, i: int) -> bool {
    ||| (has_bit(b, i - 14) || has_bit(b, i + 14))
    ||| (i % 7 >= 1 && (has_bit(b, i + 13) || has_bit(b, i - 15)))
    ||| (i % 7 <= 5 && (has_bit(b, i + 15) || has_bit(b, i - 13)))
    ||| (i % 7 >= 2 && (has_bit(b, i - 16) || has_bit(b, i - 9) || has_bit(b, i - 2) || has_bit(
        b,
        i + 5,
    ) || has_bit(b, i + 12)))
    ||| (i % 7 <= 4 && (has_bit(b, i - 12) || has_bit(b, i - 5) || has_bit(b, i + 2) || has_bit(
        b,
        i + 9,
    ) || has_bit(b, i + 16)))
}

/// Bits of the four directional shifts, and their closure in the board.
proof fn lemma_shift_bits(b: u64, i: u64)
    by (bit_vector)
    requires
        b <= FULL_BOARD,
        i < 49,
    ensures
        has_bit((b << 7u64) & FULL_BOARD, i as int) == (i >= 7 && has_bit(b, i as int - 7)),
        has_bit(b >> 7u64, i as int) == has_bit(b, i as int + 7),
        has_bit((b << 1u64) & NOT_FILE_A, i as int) == ((i as int) % 7 != 0 && has_bit(
            b,
            i as int - 1,
        )),
        has_bit((b >> 1u64) & NOT_FILE_G, i as int) == ((i as int) % 7 != 6 && has_bit(
            b,
            i as int + 1,
        )),
        (b << 7u64) & FULL_BOARD <= FULL_BOARD,
        b >> 7u64 <= FULL_BOARD,
        (b << 1u64) & NOT_FILE_A <= FULL_BOARD,
        (b >> 1u64) & NOT_FILE_G <= FULL_BOARD,
{
}

/// Bits of the fused one-step neighborhood formula.
proof fn lemma_singles_bits(b: u64, i: u64)
    by (bit_vector)
    requires
        b <= FULL_BOARD,
        i < 49,
    ensures
        has_bit(spec_singles(b), i as int) == singles_cases(b, i as int),
        spec_singles(b) <= FULL_BOARD,
{
}

/// Bits of the fused two-step neighborhood formula.
proof fn lemma_doubles_bits(b: u64, i: u64)
    by (bit_vector)
    requires
        b <= FULL_BOARD,
        i < 49,
    ensures
        has_bit(spec_doubles(b), i as int) == doubles_cases(b, i as int),
        spec_doubles(b) <= FULL_BOARD,
{
}

/// Column and row of a cell reached from `i` by a small offset.
proof fn lemma_offset_coords(i: int, df: int, dr: int)
    requires
        0 <= i < 49,
        0 <= file_of(i) + df < 7,
        0 <= i + 7 * dr + df < 49,
    ensures
        file_of(i + 7 * dr + df) == file_of(i) + df,
        rank_of(i + 7 * dr + df) == rank_of(i) + dr,
{
    lemma_square_coords(i);
    lemma_fundamental_div_mod_converse(i + 7 * dr + df, 7, rank_of(i) + dr, file_of(i) + df);
}

/// The offset cases of `singles_cases` name exactly the cells at
/// king-distance one from the destination.
pub proof fn lemma_singles_geom(b: Bitboard, i: int)
    requires
        0 <= i < 49,
    ensures
        singles_cases(b.0, i) <==> (exists|j: int| b.has(j) && king_dist(j, i) == 1),
{
    lemma_square_coords(i);
    if singles_cases(b.0, i) {
        if i >= 7 && has_bit(b.0, i - 7) {
            lemma_offset_coords(i, 0, -1);
            assert(b.has(i - 7) && king_dist(i - 7, i) == 1);
        } else if has_bit(b.0, i + 7) {
            lemma_offset_coords(i, 0, 1);
            assert(b.has(i + 7) && king_dist(i + 7, i) == 1);
        } else if i % 7 != 0 && has_bit(b.0, i - 1) {
            lemma_offset_coords(i, -1, 0);
            assert(b.has(i - 1) && king_dist(i - 1, i) == 1);
        } else if i % 7 != 0 && has_bit(b.0, i - 8) {
            lemma_offset_coords(i, -1, -1);
            assert(b.has(i - 8) && king_dist(i - 8, i) == 1);
        } else if i % 7 != 0 && has_bit(b.0, i + 6) {
            lemma_offset_coords(i, -1, 1);
            assert(b.has(i + 6) && king_dist(i + 6, i) == 1);
        } else if i % 7 != 6 && has_bit(b.0, i + 1) {
            lemma_offset_coords(i, 1, 0);
            assert(b.has(i + 1) && king_dist(i + 1, i) == 1);
        } else if i % 7 != 6 && has_bit(b.0, i - 6) {
            lemma_offset_coords(i, 1, -1);
            assert(b.has(i - 6) && king_dist(i - 6, i) == 1);
        } else if i % 7 != 6 && has_bit(b.0, i + 8) {
            lemma_offset_coords(i, 1, 1);
            assert(b.has(i + 8) && king_dist(i + 8, i) == 1);
        }
    }
    if exists|j: int| b.has(j) && king_dist(j, i) == 1 {
        let j = choose|j: int| b.has(j) && king_dist(j, i) == 1;
        lemma_square_coords(j);
        let df = file_of(j) - file_of(i);
        let dr = rank_of(j) - rank_of(i);
        assert(j == i + 7 * dr + df);
        assert(-1 <= df <= 1 && -1 <= dr <= 1);
        assert(singles_cases(b.0, i));
    }
}

/// The offset cases of `doubles_cases` name exactly the cells at
/// king-distance two from the destination.
pub proof fn lemma_doubles_geom(b: Bitboard, i: int)
    requires
        0 <= i < 49,
    ensures
        doubles_cases(b.0, i) <==> (exists|j: int| b.has(j) && king_dist(j, i) == 2),
{
    lemma_square_coords(i);
    if doubles_cases(b.0, i) {
        if has_bit(b.0, i - 14) {
            lemma_offset_coords(i, 0, -2);
            assert(b.has(i - 14) && king_dist(i - 14, i) == 2);
        } else if has_bit(b.0, i + 14) {
            lemma_offset_coords(i, 0, 2);
            assert(b.has(i + 14) && king_dist(i + 14, i) == 2);
        } else if i % 7 >= 1 && has_bit(b.0, i + 13) {
            lemma_offset_coords(i, -1, 2);
            assert(b.has(i + 13) && king_dist(i + 13, i) == 2);
        } else if i % 7 >= 1 && has_bit(b.0, i - 15) {
            lemma_offset_coords(i, -1, -2);
            assert(b.has(i - 15) && king_dist(i - 15, i) == 2);
        } else if i % 7 <= 5 && has_bit(b.0, i + 15) {
            lemma_offset_coords(i, 1, 2);
            assert(b.has(i + 15) && king_dist(i + 15, i) == 2);
        } else if i % 7 <= 5 && has_bit(b.0, i - 13) {
            lemma_offset_coords(i, 1, -2);
            assert(b.has(i - 13) && king_dist(i - 13, i) == 2);
        } else if i % 7 >= 2 && has_bit(b.0, i - 16) {
            lemma_offset_coords(i, -2, -2);
            assert(b.has(i - 16) && king_dist(i - 16, i) == 2);
        } else if i % 7 >= 2 && has_bit(b.0, i - 9) {
            lemma_offset_coords(i, -2, -1);
            assert(b.has(i - 9) && king_dist(i - 9, i) == 2);
        } else if i % 7 >= 2 && has_bit(b.0, i - 2) {
            lemma_offset_coords(i, -2, 0);
            assert(b.has(i - 2) && king_dist(i - 2, i) == 2);
        } else if i % 7 >= 2 && has_bit(b.0, i + 5) {
            lemma_offset_coords(i, -2, 1);
            assert(b.has(i + 5) && king_dist(i + 5, i) == 2);
        } else if i % 7 >= 2 && has_bit(b.0, i + 12) {
            lemma_offset_coords(i, -2, 2);
            assert(b.has(i + 12) && king_dist(i + 12, i) == 2);
        } else if i % 7 <= 4 && has_bit(b.0, i - 12) {
            lemma_offset_coords(i, 2, -2);
            assert(b.has(i - 12) && king_dist(i - 12, i) == 2);
        } else if i % 7 <= 4 && has_bit(b.0, i - 5) {
            lemma_offset_coords(i, 2, -1);
            assert(b.has(i - 5) && king_dist(i - 5, i) == 2);
        } else if i % 7 <= 4 && has_bit(b.0, i + 2) {
            lemma_offset_coords(i, 2, 0);
            assert(b.has(i + 2) && king_dist(i + 2, i) == 2);
        } else if i % 7 <= 4 && has_bit(b.0, i + 9) {
            lemma_offset_coords(i, 2, 1);
            assert(b.has(i + 9) && king_dist(i + 9, i) == 2);
        } else if i % 7 <= 4 && has_bit(b.0, i + 16) {
            lemma_offset_coords(i, 2, 2);
            assert(b.has(i + 16) && king_dist(i + 16, i) == 2);
        }
    }
    if exists|j: int| b.has(j) && king_dist(j, i) == 2 {
        let j = choose|j: int| b.has(j) && king_dist(j, i) == 2;
        lemma_square_coords(j);
        let df = file_of(j) - file_of(i);
        let dr = rank_of(j) - rank_of(i);
        assert(j == i + 7 * dr + df);
        assert(-2 <= df <= 2 && -2 <= dr <= 2);
        assert(doubles_cases(b.0, i));
    }
}

/// The word with exactly the cell `k` set.
pub proof fn lemma_single_bit(k: u64, i: u64)
    by (bit_vector)
    requires
        k < 49,
        i < 64,
    ensures
        (((1u64 << k) >> i) & 1u64) == 1u64 <==> i == k,
        (1u64 << k) <= FULL_BOARD,
{
}

/// A 49-bit subset of the board's cells.
#[derive(Debug, Copy, Clone, PartialEq, Eq, Structural)]
pub struct Bitboard(pub u64);

impl Bitboard {
    /// The standing invariant: bits 49 through 63 are zero.
    pub open spec fn wf(self) -> bool {
        self.0 <= FULL_BOARD
    }

    /// Cell `i` is in the set.  False off the board.
    pub open spec fn has(self, i: int) -> bool {
        has_bit(self.0, i)
    }

    /// Wraps a raw 64-bit mask.
    pub fn new(mask: u64) -> (r: Self)
        ensures
            r.0 == mask,
    {
        Self(mask)
    }

    /// The set holding exactly the cell with index `idx`.
    pub fn from_index(idx: u8) -> (r: Self)
        requires
            idx < 49,
        ensures
            r.wf(),
            forall|i: int| #[trigger] r.has(i) <==> i == idx,
            r.0 == (1u64 << (idx as u64)),
    {
        let r = Self(1u64 << (idx as u64));
        proof {
            assert forall|i: int| #[trigger] r.has(i) <==> i == idx by {
                if 0 <= i < 49 {
                    lemma_single_bit(idx as u64, i as u64);
                }
            }
            lemma_single_bit(idx as u64, 0);
        }
        r
    }

    /// The set holding exactly the given cell.
    pub fn from_square(sq: Square) -> (r: Self)
        requires
            sq.wf(),
        ensures
            r.wf(),
            forall|i: int| #[trigger] r.has(i) <==> i == sq.0,
            r.0 == (1u64 << (sq.0 as u64)),
    {
        Self::from_index(sq.0)
    }

    /// The set of all 49 cells.
    pub fn from_full() -> (r: Self)
        ensures
            r.wf(),
            forall|i: int| #[trigger] r.has(i) <==> 0 <= i < 49,
            r.0 == FULL_BOARD,
    {
        let r = Self(FULL_BOARD);
        proof {
            assert forall|i: int| #[trigger] r.has(i) <==> 0 <= i < 49 by {
                if 0 <= i < 49 {
                    lemma_bitop_bits(FULL_BOARD, 0, i as u64);
                }
            }
        }
        r
    }

    /// The empty set.
    pub fn from_empty() -> (r: Self)
        ensures
            r.wf(),
            forall|i: int| !(#[trigger] r.has(i)),
            r.0 == 0,
    {
        let r = Self(0);
        proof {
            assert forall|i: int| !(#[trigger] r.has(i)) by {
                if 0 <= i < 49 {
                    lemma_bitop_bits(0, 0, i as u64);
                }
            }
        }
        r
    }

    /// No cell is set.
    pub fn is_empty(&self) -> (r: bool)
        requires
            self.wf(),
        ensures
            r == (self.0 == 0),
            r <==> (forall|i: int| !(#[trigger] self.has(i))),
    {
        proof {
            lemma_board_bits(self.0);
            if self.0 == 0 {
                assert forall|i: int| !(#[trigger] self.has(i)) by {
                    assert(!has_bit(self.0, i));
                }
            } else {
                let i = choose|i: int| has_bit(self.0, i);
                assert(self.has(i));
            }
        }
        self.0 == 0
    }

    /// At least one cell is set.
    pub fn is_occupied(&self) -> (r: bool)
        requires
            self.wf(),
        ensures
            r == (self.0 != 0),
            r <==> (exists|i: int| #[trigger] self.has(i)),
    {
        let e = self.is_empty();
        !e
    }

    /// Every cell is set.
    pub fn is_full(&self) -> (r: bool)
        requires
            self.wf(),
        ensures
            r == (self.0 == FULL_BOARD),
            r <==> (forall|i: int| 0 <= i < 49 ==> #[trigger] self.has(i)),
    {
        proof {
            lemma_board_bits(self.0);
            if self.0 == FULL_BOARD {
                assert forall|i: int| 0 <= i < 49 implies #[trigger] self.has(i) by {
                    assert(has_bit(self.0, i));
                }
            } else {
                let i = choose|i: int| 0 <= i < 49 && !has_bit(self.0, i);
                assert(!self.has(i));
            }
        }
        self.0 == FULL_BOARD
    }

    /// Cell `idx` is in the set.
    pub fn is_set(&self, idx: u8) -> (r: bool)
        requires
            idx < 49,
        ensures
            r == self.has(idx as int),
    {
        ((self.0 >> (idx as u64)) & 1) == 1
    }

    /// Set intersection.
    pub fn and(self, rhs: Self) -> (r: Self)
        ensures
            r.0 == (self.0 & rhs.0),
            forall|i: int| #[trigger] r.has(i) <==> self.has(i) && rhs.has(i),
            self.wf() ==> r.wf(),
    {
        let r = Self(self.0 & rhs.0);
        proof {
            assert forall|i: int| #[trigger] r.has(i) <==> self.has(i) && rhs.has(i) by {
                if 0 <= i < 49 {
                    lemma_bitop_bits(self.0, rhs.0, i as u64);
                }
            }
            lemma_bitop_wf(self.0, rhs.0);
        }
        r
    }

    /// Set union.
    pub fn or(self, rhs: Self) -> (r: Self)
        ensures
            r.0 == (self.0 | rhs.0),
            forall|i: int| #[trigger] r.has(i) <==> self.has(i) || rhs.has(i),
            self.wf() && rhs.wf() ==> r.wf(),
    {
        let r = Self(self.0 | rhs.0);
        proof {
            assert forall|i: int| #[trigger] r.has(i) <==> self.has(i) || rhs.has(i) by {
                if 0 <= i < 49 {
                    lemma_bitop_bits(self.0, rhs.0, i as u64);
                }
            }
            lemma_bitop_wf(self.0, rhs.0);
        }
        r
    }

    /// Symmetric difference.
    pub fn xor(self, rhs: Self) -> (r: Self)
        ensures
            r.0 == (self.0 ^ rhs.0),
            forall|i: int| #[trigger] r.has(i) <==> (self.has(i) != rhs.has(i)),
            self.wf() && rhs.wf() ==> r.wf(),
    {
        let r = Self(self.0 ^ rhs.0);
        proof {
            assert forall|i: int| #[trigger] r.has(i) <==> (self.has(i) != rhs.has(i)) by {
                if 0 <= i < 49 {
                    lemma_bitop_bits(self.0, rhs.0, i as u64);
                }
            }
            lemma_bitop_wf(self.0, rhs.0);
        }
        r
    }

    /// Complement within the 49-bit board.
    pub fn flip(self) -> (r: Self)
        ensures
            r.0 == (!self.0 & FULL_BOARD),
            forall|i: int| #[trigger] r.has(i) <==> (0 <= i < 49 && !self.has(i)),
            r.wf(),
    {
        let r = Self(!self.0 & FULL_BOARD);
        proof {
            assert forall|i: int| #[trigger] r.has(i) <==> (0 <= i < 49 && !self.has(i)) by {
                if 0 <= i < 49 {
                    lemma_bitop_bits(self.0, self.0, i as u64);
                }
            }
            lemma_bitop_wf(self.0, self.0);
        }
        r
    }

    /// Every cell one row up from a cell of the set.
    pub fn north(&self) -> (r: Self)
        requires
            self.wf(),
        ensures
            r.wf(),
            r.0 == (self.0 << 7u64) & FULL_BOARD,
            forall|i: int| #[trigger] r.has(i) <==> (7 <= i < 49 && self.has(i - 7)),
    {
        let r = Self((self.0 << 7u64) & FULL_BOARD);
        proof {
            assert forall|i: int| #[trigger] r.has(i) <==> (7 <= i < 49 && self.has(i - 7)) by {
                if 0 <= i < 49 {
                    lemma_shift_bits(self.0, i as u64);
                }
            }
            lemma_shift_bits(self.0, 0);
        }
        r
    }

    /// Every cell one row down from a cell of the set.
    pub fn south(&self) -> (r: Self)
        requires
            self.wf(),
        ensures
            r.wf(),
            r.0 == self.0 >> 7u64,
            forall|i: int| #[trigger] r.has(i) <==> (0 <= i && self.has(i + 7)),
    {
        let r = Self(self.0 >> 7u64);
        proof {
            assert forall|i: int| #[trigger] r.has(i) <==> (0 <= i && self.has(i + 7)) by {
                if 0 <= i < 49 {
                    lemma_shift_bits(self.0, i as u64);
                }
            }
            lemma_shift_bits(self.0, 0);
        }
        r
    }

    /// Every cell one column to the right of a cell of the set, without
    /// wrapping across the board edge.
    pub fn east(&self) -> (r: Self)
        requires
            self.wf(),
        ensures
            r.wf(),
            r.0 == (self.0 << 1u64) & NOT_FILE_A,
            forall|i: int| #[trigger] r.has(i) <==> (0 <= i < 49 && i % 7 != 0 && self.has(i - 1)),
    {
        let r = Self((self.0 << 1u64) & NOT_FILE_A);
        proof {
            assert forall|i: int| #[trigger] r.has(i) <==> (0 <= i < 49 && i % 7 != 0 && self.has(
                i - 1,
            )) by {
                if 0 <= i < 49 {
                    lemma_shift_bits(self.0, i as u64);
                }
            }
            lemma_shift_bits(self.0, 0);
        }
        r
    }

    /// Every cell one column to the left of a cell of the set, without
    /// wrapping across the board edge.
    pub fn west(&self) -> (r: Self)
        requires
            self.wf(),
        ensures
            r.wf(),
            r.0 == (self.0 >> 1u64) & NOT_FILE_G,
            forall|i: int| #[trigger] r.has(i) <==> (0 <= i < 49 && i % 7 != 6 && self.has(i + 1)),
    {
        let r = Self((self.0 >> 1u64) & NOT_FILE_G);
        proof {
            assert forall|i: int| #[trigger] r.has(i) <==> (0 <= i < 49 && i % 7 != 6 && self.has(
                i + 1,
            )) by {
                if 0 <= i < 49 {
                    lemma_shift_bits(self.0, i as u64);
                }
            }
            lemma_shift_bits(self.0, 0);
        }
        r
    }

    /// The one-step neighborhood: every cell a king-step away from a cell
    /// of the set, with wraparound suppressed at the board edges.
    pub fn singles(&self) -> (r: Self)
        requires
            self.wf(),
        ensures
            r.wf(),
            r.0 == spec_singles(self.0),
            forall|i: int| #[trigger] r.has(i) <==> (0 <= i < 49 && exists|j: int|
                self.has(j) && king_dist(j, i) == 1),
    {
        let r = Self(
            ((self.0 << 7u64) | (self.0 >> 7u64)) & FULL_BOARD
                | ((self.0 >> 1u64) | (self.0 >> 8u64) | (self.0 << 6u64)) & NOT_FILE_G
                | ((self.0 << 1u64) | (self.0 >> 6u64) | (self.0 << 8u64)) & NOT_FILE_A,
        );
        proof {
            assert(r.0 == spec_singles(self.0));
            assert forall|i: int| #[trigger] r.has(i) <==> (0 <= i < 49 && exists|j: int|
                self.has(j) && king_dist(j, i) == 1) by {
                if 0 <= i < 49 {
                    lemma_singles_bits(self.0, i as u64);
                    lemma_singles_geom(*self, i);
                }
            }
            lemma_singles_bits(self.0, 0);
        }
        r
    }

    /// The two-step neighborhood: every cell at king-distance exactly two
    /// from a cell of the set, with wraparound suppressed at the board
    /// edges.
    pub fn doubles(&self) -> (r: Self)
        requires
            self.wf(),
        ensures
            r.wf(),
            r.0 == spec_doubles(self.0),
            forall|i: int| #[trigger] r.has(i) <==> (0 <= i < 49 && exists|j: int|
                self.has(j) && king_dist(j, i) == 2),
    {
        let r = Self(
            ((self.0 << 16u64) | (self.0 << 9u64) | (self.0 << 2u64) | (self.0 >> 5u64) | (self.0
                >> 12u64)) & NOT_FILE_AB
                | ((self.0 << 15u64) | (self.0 >> 13u64)) & NOT_FILE_A
                | ((self.0 << 14u64) | (self.0 >> 14u64)) & FULL_BOARD
                | ((self.0 << 13u64) | (self.0 >> 15u64)) & NOT_FILE_G
                | ((self.0 << 12u64) | (self.0 << 5u64) | (self.0 >> 2u64) | (self.0 >> 9u64) | (
            self.0 >> 16u64)) & NOT_FILE_FG,
        );
        proof {
            assert(r.0 == spec_doubles(self.0));
            assert forall|i: int| #[trigger] r.has(i) <==> (0 <= i < 49 && exists|j: int|
                self.has(j) && king_dist(j, i) == 2) by {
                if 0 <= i < 49 {
                    lemma_doubles_bits(self.0, i as u64);
                    lemma_doubles_geom(*self, i);
                }
            }
            lemma_doubles_bits(self.0, 0);
        }
        r
    }

    /// The full move-destination reach of the set: the union of its
    /// one-step and two-step neighborhoods.
    pub fn both(&self) -> (r: Self)
        requires
            self.wf(),
        ensures
            r.wf(),
            r.0 == spec_reach(self.0),
            forall|i: int| #[trigger] r.has(i) <==> (0 <= i < 49 && exists|j: int|
                self.has(j) && 1 <= king_dist(j, i) <= 2),
    {
        let s = self.singles();
        let d = self.doubles();
        let r = s.or(d);
        proof {
            assert forall|i: int| #[trigger] r.has(i) <==> (0 <= i < 49 && exists|j: int|
                self.has(j) && 1 <= king_dist(j, i) <= 2) by {
                if 0 <= i < 49 {
                    if r.has(i) {
                        if s.has(i) {
                            let j = choose|j: int| self.has(j) && king_dist(j, i) == 1;
                            assert(self.has(j) && 1 <= king_dist(j, i) <= 2);
                        } else {
                            let j = choose|j: int| self.has(j) && king_dist(j, i) == 2;
                            assert(self.has(j) && 1 <= king_dist(j, i) <= 2);
                        }
                    }
                    if exists|j: int| self.has(j) && 1 <= king_dist(j, i) <= 2 {
                        let j = choose|j: int| self.has(j) && 1 <= king_dist(j, i) <= 2;
                        if king_dist(j, i) == 1 {
                            assert(self.has(j) && king_dist(j, i) == 1);
                            assert(s.has(i));
                        } else {
                            assert(self.has(j) && king_dist(j, i) == 2);
                            assert(d.has(i));
                        }
                    }
                }
            }
        }
        r
    }

    /// Same as `both`: every cell reachable in one move from the set.
    pub fn reach(&self) -> (r: Self)
        requires
            self.wf(),
        ensures
            r.wf(),
            r.0 == spec_reach(self.0),
            forall|i: int| #[trigger] r.has(i) <==> (0 <= i < 49 && exists|j: int|
                self.has(j) && 1 <= king_dist(j, i) <= 2),
    {
        self.both()
    }

    /// Number of set cells.
    pub fn count(&self) -> (r: i32)
        ensures
            r == popcount(self.0, 64),
            0 <= r <= 64,
    {
        let mut c: i32 = 0;
        let mut i: u64 = 0;
        while i < 64
            invariant
                i <= 64,
                0 <= c <= i,
                c == popcount(self.0, i as nat),
            decreases 64 - i,
        {
            if ((self.0 >> i) & 1) == 1 {
                c = c + 1;
            }
            i = i + 1;
        }
        c
    }
}

/// The one-step neighborhood of a board word stays inside the board.
pub proof fn lemma_singles_wf(b: u64)
    requires
        b <= FULL_BOARD,
    ensures
        spec_singles(b) <= FULL_BOARD,
{
    lemma_singles_bits(b, 0);
}

/// The two-step neighborhood of a board word stays inside the board.
pub proof fn lemma_doubles_wf(b: u64)
    requires
        b <= FULL_BOARD,
    ensures
        spec_doubles(b) <= FULL_BOARD,
{
    lemma_doubles_bits(b, 0);
}

/// A cell of the two-step neighborhood word: at king-distance exactly two
/// from some cell of `b`.
pub proof fn lemma_doubles_has(b: u64, i: int)
    requires
        b <= FULL_BOARD,
        0 <= i < 49,
    ensures
        has_bit(spec_doubles(b), i) <==> (exists|j: int| has_bit(b, j) && king_dist(j, i) == 2),
{
    lemma_doubles_bits(b, i as u64);
    lemma_doubles_geom(Bitboard(b), i);
    if has_bit(spec_doubles(b), i) {
        let j = choose|j: int| Bitboard(b).has(j) && king_dist(j, i) == 2;
        assert(has_bit(b, j) && king_dist(j, i) == 2);
    }
    if exists|j: int| has_bit(b, j) && king_dist(j, i) == 2 {
        let j = choose|j: int| has_bit(b, j) && king_dist(j, i) == 2;
        assert(Bitboard(b).has(j) && king_dist(j, i) == 2);
    }
}

/// A board word is zero exactly when its bit count is zero.
pub proof fn lemma_count_zero(b: u64)
    requires
        b <= FULL_BOARD,
    ensures
        (popcount(b, 64) == 0) <==> (b == 0),
        (popcount(b, 49) == 0) <==> (b == 0),
{
    lemma_popcount_board(b);
    lemma_popcount_zero_bits(b, 49);
    if b == 0 {
        assert forall|i: int| 0 <= i < 49 implies (#[trigger] ((b >> (i as u64)) & 1u64))
            != 1u64 by {
            lemma_bitop_bits(0, 0, i as u64);
        }
        assert(popcount(b, 49) == 0);
    }
    if popcount(b, 49) == 0 {
        assert forall|i: int| !(#[trigger] has_bit(b, i)) by {
            if 0 <= i < 49 {
                assert(((b >> (i as u64)) & 1u64) != 1u64);
            }
        }
        lemma_board_bits(b);
    }
}

/// A zero bit count below `n` means every bit below `n` is clear, and
/// conversely.
proof fn lemma_popcount_zero_bits(b: u64, n: nat)
    requires
        n <= 64,
    ensures
        (popcount(b, n) == 0) <==> (forall|i: int|
            0 <= i < n ==> (#[trigger] ((b >> (i as u64)) & 1u64)) != 1u64),
    decreases n,
{
    if n > 0 {
        lemma_popcount_zero_bits(b, (n - 1) as nat);
    }
}

/// The one-step neighborhood of a single cell `k` holds exactly the cells
/// at king-distance one from `k`.
pub proof fn lemma_singleton_singles(k: int, i: int)
    requires
        0 <= k < 49,
    ensures
        has_bit(spec_singles(1u64 << (k as u64)), i) <==> (0 <= i < 49 && king_dist(k, i) == 1),
{
    let tb = 1u64 << (k as u64);
    lemma_single_bit(k as u64, 0);
    if 0 <= i < 49 {
        lemma_singles_bits(tb, i as u64);
        lemma_singles_geom(Bitboard(tb), i);
        if has_bit(spec_singles(tb), i) {
            let j = choose|j: int| Bitboard(tb).has(j) && king_dist(j, i) == 1;
            lemma_single_bit(k as u64, j as u64);
            assert(j == k);
        }
        if king_dist(k, i) == 1 {
            lemma_single_bit(k as u64, k as u64);
            assert(Bitboard(tb).has(k) && king_dist(k, i) == 1);
        }
    }
}

/// The two-step neighborhood of a single cell `k` holds exactly the cells
/// at king-distance two from `k`.
pub proof fn lemma_singleton_doubles(k: int, i: int)
    requires
        0 <= k < 49,
    ensures
        has_bit(spec_doubles(1u64 << (k as u64)), i) <==> (0 <= i < 49 && king_dist(k, i) == 2),
{
    let tb = 1u64 << (k as u64);
    lemma_single_bit(k as u64, 0);
    if 0 <= i < 49 {
        lemma_doubles_bits(tb, i as u64);
        lemma_doubles_geom(Bitboard(tb), i);
        if has_bit(spec_doubles(tb), i) {
            let j = choose|j: int| Bitboard(tb).has(j) && king_dist(j, i) == 2;
            lemma_single_bit(k as u64, j as u64);
            assert(j == k);
        }
        if king_dist(k, i) == 2 {
            lemma_single_bit(k as u64, k as u64);
            assert(Bitboard(tb).has(k) && king_dist(k, i) == 2);
        }
    }
}

/// A single cell's word is well-formed.
pub proof fn lemma_singleton_wf(k: int)
    requires
        0 <= k < 49,
    ensures
        (1u64 << (k as u64)) <= FULL_BOARD,
        forall|i: int| #[trigger] has_bit(1u64 << (k as u64), i) <==> i == k,
{
    lemma_single_bit(k as u64, 0);
    assert forall|i: int| #[trigger] has_bit(1u64 << (k as u64), i) <==> i == k by {
        if 0 <= i < 49 {
            lemma_single_bit(k as u64, i as u64);
        }
    }
}

/// Two board words are disjoint exactly when no cell is in both.
pub proof fn lemma_disjoint_bits(a: u64, b: u64)
    requires
        a <= FULL_BOARD,
    ensures
        (a & b == 0) <==> (forall|i: int| !(has_bit(a, i) && has_bit(b, i))),
{
    lemma_bitop_wf(a, b);
    lemma_board_bits(a & b);
    if a & b == 0 {
        assert forall|i: int| !(has_bit(a, i) && #[trigger] has_bit(b, i)) by {
            if 0 <= i < 49 {
                lemma_bitop_bits(a, b, i as u64);
                assert(!has_bit(a & b, i));
            }
        }
    }
    if forall|i: int| !(has_bit(a, i) && has_bit(b, i)) {
        assert forall|i: int| !(#[trigger] has_bit(a & b, i)) by {
            if 0 <= i < 49 {
                lemma_bitop_bits(a, b, i as u64);
                assert(!(has_bit(a, i) && has_bit(b, i)));
            }
        }
    }
}

/// A count over the first `n` positions cannot exceed `n`.
pub proof fn lemma_popcount_le(b: u64, n: nat)
    ensures
        popcount(b, n) <= n,
    decreases n,
{
    if n > 0 {
        lemma_popcount_le(b, (n - 1) as nat);
    }
}

/// Complement closure: a board and its complement within the 49-bit space
/// together cover the full board, and share no cell.
pub proof fn lemma_complement_closure(b: Bitboard)
    requires
        b.wf(),
    ensures
        (b.0 | (!b.0 & FULL_BOARD)) == FULL_BOARD,
        (b.0 & (!b.0 & FULL_BOARD)) == 0,
{
    let x = b.0;
    assert((x <= FULL_BOARD) ==> ((x | (!x & FULL_BOARD)) == FULL_BOARD && (x & (!x & FULL_BOARD))
        == 0)) by (bit_vector);
}

/// Any set cell of a well-formed board lies below position 49, so a count
/// over all 64 bit positions equals the count over the board.
pub proof fn lemma_popcount_board(b: u64)
    requires
        b <= FULL_BOARD,
    ensures
        popcount(b, 64) == popcount(b, 49),
{
    assert forall|i: u64| 49 <= i < 64 implies ((b >> i) & 1u64) != 1u64 by {
        lemma_high_zero(b, i);
    }
    lemma_popcount_high(b, 64);
}

/// Helper induction for `lemma_popcount_board`.
proof fn lemma_popcount_high(b: u64, n: nat)
    requires
        b <= FULL_BOARD,
        49 <= n <= 64,
        forall|i: u64| 49 <= i < 64 ==> ((b >> i) & 1u64) != 1u64,
    ensures
        popcount(b, n) == popcount(b, 49),
    decreases n,
{
    if n > 49 {
        assert(((b >> (((n - 1) as nat) as u64)) & 1u64) != 1u64);
        lemma_popcount_high(b, (n - 1) as nat);
    }
}

} // verus!
