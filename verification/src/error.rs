//! The errors of the library.

use vstd::prelude::*;

verus! {

/// What can go wrong when a grid is built, carved or measured.
#[derive(Debug, Clone, Copy, PartialEq, Eq, Structural)]
pub enum MazeError {
    /// A coordinate or a cell index lies outside the grid.
    OutOfBounds,
    /// A random location was asked of a mask without active cells.
    EmptyMask,
    /// The two cells of a link are not neighbours.
    InvalidLink,
    /// The walk of an algorithm could not reach every cell.
    Disconnected,
    /// No chain of links joins the two cells.
    NoPath,
}

} // verus!
