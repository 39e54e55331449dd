//! The four edge relations between grid-adjacent cells.

use vstd::prelude::*;

verus! {

/// The side of a piece on which a neighbour sits.
#[derive(Clone, Copy, Debug, PartialEq, Eq, Structural)]
pub enum Direction {
    Up,
    Down,
    Left,
    Right,
}

impl Direction {
    /// The opposite side: `Up` and `Down` swap, `Left` and `Right` swap.
    pub open spec fn inverse_spec(self) -> Direction {
        match self {
            Direction::Up => Direction::Down,
            Direction::Down => Direction::Up,
            Direction::Left => Direction::Right,
            Direction::Right => Direction::Left,
        }
    }

    /// The place of this side in a per-piece table: `Up`, `Down`, `Left`,
    /// `Right` in this order.
    pub open spec fn index_spec(self) -> int {
        match self {
            Direction::Up => 0,
            Direction::Down => 1,
            Direction::Left => 2,
            Direction::Right => 3,
        }
    }

    /// Returns the place of this side in a per-piece table.
    pub fn index(self) -> (i: usize)
        ensures
            i == self.index_spec(),
            i < 4,
    {
        match self {
            Direction::Up => 0,
            Direction::Down => 1,
            Direction::Left => 2,
            Direction::Right => 3,
        }
    }

    /// Returns the opposite side.
    pub fn inverse(self) -> (r: Direction)
        ensures
            r == self.inverse_spec(),
    {
        match self {
            Direction::Up => Direction::Down,
            Direction::Down => Direction::Up,
            Direction::Left => Direction::Right,
            Direction::Right => Direction::Left,
        }
    }
}

} // verus!
