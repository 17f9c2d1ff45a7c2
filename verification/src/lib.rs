//! A verified rules engine for the board game Ataxx, played on a 7x7 grid.
//!
//! Positions are held as three 49-bit bitboards (one per side plus permanent
//! walls) together with the side to move and the two move counters.  The
//! crate parses and serialises the textual board notation, enumerates legal
//! moves, applies moves (including the capture rule), detects terminal
//! positions, and counts move-tree nodes to a given depth.

pub mod bitboard;
pub mod fen;
pub mod gameover;
pub mod makemove;
pub mod movegen;
pub mod moves;
pub mod perft;
pub mod piece;
pub mod position;
pub mod result;
pub mod side;
pub mod squares;

pub use bitboard::Bitboard;
pub use moves::Move;
pub use moves::MoveError;
pub use fen::FenError;
pub use piece::Piece;
pub use position::Position;
pub use result::GameResult;
pub use side::Side;
pub use squares::Square;
pub use squares::SquareIdx;
