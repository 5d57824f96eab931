//! Directions of movement on the grid and the library's error type.

use vstd::prelude::*;

verus! {

/// A direction from a cell to one of its four neighbours. Stored in a cell it
/// names the direction to walk from that cell to reach its parent in the tree.
#[derive(Clone, Copy, Debug, PartialEq, Eq, Structural)]
pub enum Dir {
    Up,
    Down,
    Left,
    Right,
}

impl Dir {
    /// The direction that leads back across the same edge.
    pub open spec fn opposite(self) -> Dir {
        match self {
            Dir::Up => Dir::Down,
            Dir::Down => Dir::Up,
            Dir::Left => Dir::Right,
            Dir::Right => Dir::Left,
        }
    }
}

/// Errors returned on invalid inputs.
#[derive(Clone, Copy, Debug, PartialEq, Eq, Structural)]
pub enum MazeError {
    /// A maze was requested with a zero width or height.
    InvalidDimension,
    /// The grid has a single cell, so the root has nowhere to move.
    DegenerateGrid,
    /// A wall query named a coordinate outside the grid.
    OutOfBounds,
}

} // verus!
