//! The three kinds of occupied cell.

use vstd::prelude::*;

verus! {

/// What occupies a cell: a piece of either side, or a permanent wall.
pub enum Piece {
    Black,
    White,
    Wall,
}

} // verus!
