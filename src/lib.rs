//! Rule engine for Reversi (Othello): legal moves, disk flipping, turn passing,
//! end of game detection, scores, and a game driver with undo.

use vstd::prelude::*;

pub mod board;
pub mod turn;
pub mod game;
pub mod test_ai;

verus! {

use crate::board::Coord;
use crate::turn::Turn;

/// The two players of a match.
#[derive(Debug, Clone, Copy, PartialEq, Eq, Structural)]
pub enum Side {
    Dark,
    Light,
}

impl Side {
    /// The other side.
    pub open spec fn spec_opposite(self) -> Side {
        match self {
            Side::Dark => Side::Light,
            Side::Light => Side::Dark,
        }
    }

    /// Returns the other side.
    #[verifier::when_used_as_spec(spec_opposite)]
    pub fn opposite(self) -> (r: Side)
        ensures
            r == self.spec_opposite(),
    {
        match self {
            Side::Dark => Side::Light,
            Side::Light => Side::Dark,
        }
    }
}

/// Taking the opposite side twice gives back the side.
pub proof fn lemma_opposite_involutive(s: Side)
    ensures
        s.opposite().opposite() == s,
        s.opposite() != s,
{
}

/// The errors that the engine reports.
#[derive(Debug, Clone, Copy)]
pub enum ReversiError {
    OutOfBoundCoord(Coord),
    OutOfBoundIndex(usize),
    EmptyCell(Coord),
    CellAlreadyTaken(Coord),
    IllegalMove(Coord),
    EndedGame(Turn),
    NoUndo,
}

/// The result type of the engine's fallible operations.
pub type Result<T> = core::result::Result<T, ReversiError>;

} // verus!
