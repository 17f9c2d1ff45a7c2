//! Board cells and their two-character coordinates.

use vstd::prelude::*;

verus! {

/// One of the 49 playable cells, identified by an index in `[0, 48]`:
/// `index = 7 * rank + file`, counted from the bottom-left cell `a1`,
/// increasing rightward then upward.
#[derive(Debug, Copy, Clone, PartialEq, Eq, Structural)]
pub struct Square(pub u8);

/// The 49 cells by name, in index order.
#[derive(Copy, Clone)]
pub enum SquareIdx {
    A1, B1, C1, D1, E1, F1, G1,
    A2, B2, C2, D2, E2, F2, G2,
    A3, B3, C3, D3, E3, F3, G3,
    A4, B4, C4, D4, E4, F4, G4,
    A5, B5, C5, D5, E5, F5, G5,
    A6, B6, C6, D6, E6, F6, G6,
    A7, B7, C7, D7, E7, F7, G7,
}

/// Column of a cell index: `a` is 0, `g` is 6.
pub open spec fn file_of(i: int) -> int {
    i % 7
}

/// Row of a cell index: rank `1` is 0, rank `7` is 6.
pub open spec fn rank_of(i: int) -> int {
    i / 7
}

/// A column letter `a` ..= `g`.
pub open spec fn is_file_char(c: char) -> bool {
    97 <= (c as int) <= 103
}

/// A rank digit `1` ..= `7`.
pub open spec fn is_rank_char(c: char) -> bool {
    49 <= (c as int) <= 55
}

/// The first two characters are a valid cell coordinate such as `a1`.
pub open spec fn is_coord(s: Seq<char>) -> bool {
    s.len() >= 2 && is_file_char(s[0]) && is_rank_char(s[1])
}

/// The cell index named by a coordinate's two characters.
pub open spec fn coord_index(s: Seq<char>) -> int {
    7 * ((s[1] as int) - 49) + ((s[0] as int) - 97)
}

/// The column letter of column `x`.
pub open spec fn char_of_file(x: int) -> char {
    if x == 0 { 'a' }
    else if x == 1 { 'b' }
    else if x == 2 { 'c' }
    else if x == 3 { 'd' }
    else if x == 4 { 'e' }
    else if x == 5 { 'f' }
    else { 'g' }
}

/// The rank digit of row `y`.
pub open spec fn char_of_rank(y: int) -> char {
    if y == 0 { '1' }
    else if y == 1 { '2' }
    else if y == 2 { '3' }
    else if y == 3 { '4' }
    else if y == 4 { '5' }
    else { if y == 5 { '6' } else { '7' } }
}

impl Square {
    /// The index lies on the board.
    pub open spec fn wf(self) -> bool {
        self.0 < 49
    }

    /// The two-character coordinate of this cell.
    pub open spec fn spec_str(self) -> Seq<char> {
        seq![char_of_file(file_of(self.0 as int)), char_of_rank(rank_of(self.0 as int))]
    }

    /// Builds the cell with the given name.
    pub fn from_index(idx: SquareIdx) -> (r: Self)
        ensures
            r.0 == idx as int,
            r.wf(),
    {
        Self(idx as u8)
    }

    /// Reads a coordinate such as `c4`: column letter first, then rank digit.
    pub fn from_str(sqstr: &str) -> (r: Self)
        requires
            is_coord(sqstr@),
        ensures
            r.0 == coord_index(sqstr@),
            r.wf(),
    {
        let c0 = sqstr.get_char(0);
        let c1 = sqstr.get_char(1);
        let x = (c0 as u32 - 97) as u8;
        let y = (c1 as u32 - 49) as u8;
        Self(7 * y + x)
    }

    /// The cell's column, 0 ..= 6.
    pub fn get_x(&self) -> (r: u8)
        ensures
            r == file_of(self.0 as int),
    {
        self.0 % 7
    }

    /// The cell's row, 0 ..= 6.
    pub fn get_y(&self) -> (r: u8)
        ensures
            r == rank_of(self.0 as int),
    {
        self.0 / 7
    }

    /// Writes the coordinate of this cell, the inverse of `from_str`.
    pub fn to_string(&self) -> (r: String)
        requires
            self.wf(),
        ensures
            r@ == self.spec_str(),
    {
        let x = self.get_x();
        let y = self.get_y();
        let file: &str = match x {
            0 => "a",
            1 => "b",
            2 => "c",
            3 => "d",
            4 => "e",
            5 => "f",
            _ => "g",
        };
        let rank: &str = match y {
            0 => "1",
            1 => "2",
            2 => "3",
            3 => "4",
            4 => "5",
            5 => "6",
            _ => "7",
        };
        proof {
            reveal_strlit("a");
            reveal_strlit("b");
            reveal_strlit("c");
            reveal_strlit("d");
            reveal_strlit("e");
            reveal_strlit("f");
            reveal_strlit("g");
            reveal_strlit("1");
            reveal_strlit("2");
            reveal_strlit("3");
            reveal_strlit("4");
            reveal_strlit("5");
            reveal_strlit("6");
            reveal_strlit("7");
        }
        let mut out = String::new();
        out.append(file);
        out.append(rank);
        proof {
            assert(out@ =~= self.spec_str());
        }
        out
    }
}

} // verus!
