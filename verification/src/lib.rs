use vstd::prelude::*;

pub mod ascii;
pub mod bitboard;
pub mod board;
pub mod color;
mod random;
pub mod util;
pub mod zobrist;

pub use bitboard::{Bitboard16, RowIterator};
pub use ascii::format_ascii_helper;
pub use board::{Board, BoardInvariantError, MoveError};
pub use color::{Color, ColorMap};
pub use util::Splitmix64;
pub use zobrist::{ZobristHash, ZobristHasher};

verus! {

/// Position on the board.
#[derive(Clone, Copy, Debug, PartialEq, Eq, Structural)]
pub struct Position {
    pub row: usize,
    pub col: usize,
}

impl Position {
    pub fn new(row: usize, col: usize) -> (p: Position)
        ensures
            p.row == row,
            p.col == col,
    {
        Position { row, col }
    }
}

impl vstd::std_specs::convert::FromSpecImpl<(usize, usize)> for Position {
    open spec fn obeys_from_spec() -> bool {
        true
    }

    open spec fn from_spec(value: (usize, usize)) -> Position {
        Position { row: value.0, col: value.1 }
    }
}

impl From<(usize, usize)> for Position {
    fn from(value: (usize, usize)) -> (p: Position)
        ensures
            p.row == value.0,
            p.col == value.1,
    {
        Position { row: value.0, col: value.1 }
    }
}

} // verus!
