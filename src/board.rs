//! The board and its elements: directions, coordinates, disks and cells.

use vstd::prelude::*;

verus! {

use crate::{ReversiError, Result, Side};

/// The number of cells per side of the board.
pub const BOARD_SIZE: usize = 8;

/// The total number of cells of the board.
pub const NUM_CELLS: usize = BOARD_SIZE * BOARD_SIZE;

/// The eight compass directions, in scanning order.
/// Moving `NE` from cell `(4, 5)` leads to cell `(3, 6)`.
#[derive(Debug, Clone, Copy, PartialEq, Eq, Structural)]
pub enum Direction {
    North,
    NE,
    East,
    SE,
    South,
    SW,
    West,
    NW,
}

impl Direction {
    /// The change of row of one step.
    pub open spec fn delta_row(self) -> int {
        match self {
            Direction::North | Direction::NE | Direction::NW => -1,
            Direction::South | Direction::SE | Direction::SW => 1,
            _ => 0,
        }
    }

    /// The change of column of one step.
    pub open spec fn delta_col(self) -> int {
        match self {
            Direction::NE | Direction::East | Direction::SE => 1,
            Direction::SW | Direction::West | Direction::NW => -1,
            _ => 0,
        }
    }

    /// The direction pointing the other way.
    pub open spec fn spec_opposite(self) -> Direction {
        match self {
            Direction::North => Direction::South,
            Direction::NE => Direction::SW,
            Direction::East => Direction::West,
            Direction::SE => Direction::NW,
            Direction::South => Direction::North,
            Direction::SW => Direction::NE,
            Direction::West => Direction::East,
            Direction::NW => Direction::SE,
        }
    }

    /// Returns the direction pointing the other way.
    pub fn opposite(&self) -> (r: Direction)
        ensures
            r == self.spec_opposite(),
            r.delta_row() == -self.delta_row(),
            r.delta_col() == -self.delta_col(),
    {
        match *self {
            Direction::North => Direction::South,
            Direction::NE => Direction::SW,
            Direction::East => Direction::West,
            Direction::SE => Direction::NW,
            Direction::South => Direction::North,
            Direction::SW => Direction::NE,
            Direction::West => Direction::East,
            Direction::NW => Direction::SE,
        }
    }

    /// The direction at position `i` of the scanning order
    /// North, NE, East, SE, South, SW, West, NW.
    pub open spec fn spec_nth(i: int) -> Direction {
        if i <= 0 {
            Direction::North
        } else if i == 1 {
            Direction::NE
        } else if i == 2 {
            Direction::East
        } else if i == 3 {
            Direction::SE
        } else if i == 4 {
            Direction::South
        } else if i == 5 {
            Direction::SW
        } else if i == 6 {
            Direction::West
        } else {
            Direction::NW
        }
    }

    /// The position of the direction in the scanning order.
    pub open spec fn index(self) -> int {
        match self {
            Direction::North => 0,
            Direction::NE => 1,
            Direction::East => 2,
            Direction::SE => 3,
            Direction::South => 4,
            Direction::SW => 5,
            Direction::West => 6,
            Direction::NW => 7,
        }
    }

    /// Returns the direction at position `i` of the scanning order.
    pub fn nth(i: usize) -> (r: Direction)
        requires
            i < 8,
        ensures
            r == Direction::spec_nth(i as int),
            r.index() == i,
    {
        if i == 0 {
            Direction::North
        } else if i == 1 {
            Direction::NE
        } else if i == 2 {
            Direction::East
        } else if i == 3 {
            Direction::SE
        } else if i == 4 {
            Direction::South
        } else if i == 5 {
            Direction::SW
        } else if i == 6 {
            Direction::West
        } else {
            Direction::NW
        }
    }
}

/// Every direction has its place in the scanning order.
pub proof fn lemma_nth_index(d: Direction)
    ensures
        0 <= d.index() < 8,
        Direction::spec_nth(d.index()) == d,
{
}

/// The usize that wrapping arithmetic gives for the integer `x`,
/// for `x` at most one away from the range of usize.
pub open spec fn wrap_usize(x: int) -> usize {
    if x < 0 {
        (x + usize::MAX + 1) as usize
    } else if x > usize::MAX {
        (x - usize::MAX - 1) as usize
    } else {
        x as usize
    }
}

/// Coordinates of a cell: a row and a column, both counted from 0.
#[derive(Debug, Clone, Copy, PartialEq, Eq, Structural, PartialOrd, Ord, Hash)]
pub struct Coord(pub usize, pub usize);

impl Coord {
    /// Whether the coordinates name a cell of the board.
    pub open spec fn in_bounds(self) -> bool {
        self.0 < BOARD_SIZE && self.1 < BOARD_SIZE
    }

    /// The coordinates one step away along `dir`, computed with wrapping arithmetic.
    pub open spec fn spec_step(self, dir: Direction) -> Coord {
        Coord(
            wrap_usize(self.0 as int + dir.delta_row()),
            wrap_usize(self.1 as int + dir.delta_col()),
        )
    }

    pub fn new(row: usize, col: usize) -> (r: Coord)
        ensures
            r == Coord(row, col),
    {
        Coord(row, col)
    }

    pub fn get_row(&self) -> (r: usize)
        ensures
            r == self.0,
    {
        self.0
    }

    pub fn get_col(&self) -> (r: usize)
        ensures
            r == self.1,
    {
        self.1
    }

    pub fn get_row_col(&self) -> (r: (usize, usize))
        ensures
            r == (self.0, self.1),
    {
        (self.get_row(), self.get_col())
    }

    /// Produces the coordinates one step away along `dir`.
    /// Bounds are not checked: stepping off the board wraps around usize.
    pub fn step(&self, dir: Direction) -> (r: Coord)
        ensures
            r == self.spec_step(dir),
    {
        match dir {
            Direction::North => Coord::new(self.0.wrapping_sub(1), self.1),
            Direction::NE => Coord::new(self.0.wrapping_sub(1), self.1.wrapping_add(1)),
            Direction::East => Coord::new(self.0, self.1.wrapping_add(1)),
            Direction::SE => Coord::new(self.0.wrapping_add(1), self.1.wrapping_add(1)),
            Direction::South => Coord::new(self.0.wrapping_add(1), self.1),
            Direction::SW => Coord::new(self.0.wrapping_add(1), self.1.wrapping_sub(1)),
            Direction::West => Coord::new(self.0, self.1.wrapping_sub(1)),
            Direction::NW => Coord::new(self.0.wrapping_sub(1), self.1.wrapping_sub(1)),
        }
    }
}

/// A disk, showing the side of one player.
#[derive(Debug, Clone, Copy, PartialEq, Eq, Structural)]
pub struct Disk(pub Side);

impl Disk {
    /// Creates a new disk with the given side up.
    pub fn new(side: Side) -> (r: Disk)
        ensures
            r.0 == side,
    {
        Disk(side)
    }

    /// Returns the disk's side.
    pub fn get_side(&self) -> (r: Side)
        ensures
            r == self.0,
    {
        self.0
    }

    /// Turns the disk on its other side.
    pub fn flip(&mut self)
        ensures
            final(self).0 == old(self).0.opposite(),
    {
        self.0 = self.0.opposite();
    }
}

/// A cell of the board: empty, or holding a disk.
pub type Cell = Option<Disk>;

/// The cell with its disk, if any, turned over.
pub open spec fn flipped_cell(c: Cell) -> Cell {
    match c {
        Some(d) => Some(Disk(d.0.opposite())),
        None => None,
    }
}

/// An 8x8 grid of cells.
#[derive(Debug, Clone, Copy, PartialEq, Eq)]
pub struct Board(pub [[Cell; BOARD_SIZE]; BOARD_SIZE]);

impl Board {
    /// The cell at row `r` and column `c`.
    pub open spec fn cell(self, r: int, c: int) -> Cell {
        self.0[r][c]
    }

    /// The side of the disk at row `r` and column `c`; `None` for an empty
    /// cell or for a position off the board.
    pub open spec fn side_at(self, r: int, c: int) -> Option<Side> {
        if 0 <= r < BOARD_SIZE && 0 <= c < BOARD_SIZE {
            match self.cell(r, c) {
                Some(d) => Some(d.0),
                None => None,
            }
        } else {
            None
        }
    }

    pub fn new(board: [[Cell; BOARD_SIZE]; BOARD_SIZE]) -> (r: Board)
        ensures
            r.0 == board,
    {
        Board(board)
    }

    /// Returns the cell at `coord`, or `OutOfBoundCoord` when `coord` is off the board.
    pub fn get_cell(&self, coord: Coord) -> (r: Result<&Cell>)
        ensures
            match r {
                Ok(cell) => coord.in_bounds() && *cell == self.cell(coord.0 as int, coord.1 as int),
                Err(e) => !coord.in_bounds() && e == ReversiError::OutOfBoundCoord(coord),
            },
    {
        if coord.0 < BOARD_SIZE && coord.1 < BOARD_SIZE {
            Ok(&self.0[coord.0][coord.1])
        } else {
            Err(ReversiError::OutOfBoundCoord(coord))
        }
    }

    /// Turns over the disk at `coord`. Fails with `OutOfBoundCoord` off the board and
    /// with `EmptyCell` on an empty cell, leaving the board as it was.
    pub fn flip_disk(&mut self, coord: Coord) -> (r: Result<()>)
        ensures
            !coord.in_bounds() ==> r == Err::<(), _>(ReversiError::OutOfBoundCoord(coord)),
            coord.in_bounds() && old(self).cell(coord.0 as int, coord.1 as int) is None ==> r
                == Err::<(), _>(ReversiError::EmptyCell(coord)),
            coord.in_bounds() && old(self).cell(coord.0 as int, coord.1 as int) is Some ==> r is Ok,
            r is Err ==> *final(self) == *old(self),
            r is Ok ==> coord.in_bounds() && old(self).cell(coord.0 as int, coord.1 as int) is Some,
            r is Ok ==> forall|i: int, j: int|
                0 <= i < BOARD_SIZE && 0 <= j < BOARD_SIZE ==> #[trigger] final(self).cell(i, j) == if i
                    == coord.0 && j == coord.1 {
                    flipped_cell(old(self).cell(i, j))
                } else {
                    old(self).cell(i, j)
                },
    {
        if coord.0 >= BOARD_SIZE || coord.1 >= BOARD_SIZE {
            return Err(ReversiError::OutOfBoundCoord(coord));
        }
        let mut row = self.0[coord.0];
        match row[coord.1] {
            None => Err(ReversiError::EmptyCell(coord)),
            Some(disk) => {
                let mut flipped = disk;
                flipped.flip();
                row[coord.1] = Some(flipped);
                self.0[coord.0] = row;
                Ok(())
            },
        }
    }

    /// Whether the cell at `coord` is empty; `OutOfBoundCoord` when `coord` is off the board.
    pub fn is_empty(&self, coord: Coord) -> (r: Result<bool>)
        ensures
            coord.in_bounds() ==> r == Ok::<bool, ReversiError>(
                self.cell(coord.0 as int, coord.1 as int) is None,
            ),
            !coord.in_bounds() ==> r == Err::<bool, _>(ReversiError::OutOfBoundCoord(coord)),
    {
        match self.get_cell(coord) {
            Ok(cell) => Ok(cell.is_none()),
            Err(e) => Err(e),
        }
    }

    /// Puts a new disk of `side` at `coord`. Fails with `OutOfBoundCoord` off the board
    /// and with `CellAlreadyTaken` on an occupied cell, leaving the board as it was.
    pub fn place_disk(&mut self, side: Side, coord: Coord) -> (r: Result<()>)
        ensures
            !coord.in_bounds() ==> r == Err::<(), _>(ReversiError::OutOfBoundCoord(coord)),
            coord.in_bounds() && old(self).cell(coord.0 as int, coord.1 as int) is Some ==> r
                == Err::<(), _>(ReversiError::CellAlreadyTaken(coord)),
            coord.in_bounds() && old(self).cell(coord.0 as int, coord.1 as int) is None ==> r is Ok,
            r is Err ==> *final(self) == *old(self),
            r is Ok ==> coord.in_bounds() && old(self).cell(coord.0 as int, coord.1 as int) is None,
            r is Ok ==> forall|i: int, j: int|
                0 <= i < BOARD_SIZE && 0 <= j < BOARD_SIZE ==> #[trigger] final(self).cell(i, j) == if i
                    == coord.0 && j == coord.1 {
                    Some(Disk(side))
                } else {
                    old(self).cell(i, j)
                },
    {
        if coord.0 >= BOARD_SIZE || coord.1 >= BOARD_SIZE {
            return Err(ReversiError::OutOfBoundCoord(coord));
        }
        let mut row = self.0[coord.0];
        if row[coord.1].is_some() {
            Err(ReversiError::CellAlreadyTaken(coord))
        } else {
            row[coord.1] = Some(Disk::new(side));
            self.0[coord.0] = row;
            Ok(())
        }
    }

    pub fn get_board(&self) -> (r: &[[Cell; BOARD_SIZE]; BOARD_SIZE])
        ensures
            *r == self.0,
    {
        &self.0
    }
}

} // verus!
