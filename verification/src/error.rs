//! Errors returned by the grid's mutation operations. All are local and
//! recoverable; the caller decides how to surface them.

use vstd::prelude::*;

use crate::grid_pos::GridPos;

verus! {

#[derive(Debug, Clone, Copy, PartialEq, Eq, Structural)]
pub enum GunpeyLibError {
    /// A swap by linear indexes named an index outside the cell sequence.
    CantSwapBadIndex { a: usize, b: usize, length: usize },
    /// A swap by linear indexes named the same index twice.
    CantSwapSameIndex(usize, usize),
    /// A swap by positions named a position with no valid linear index.
    CantSwapBadPosition { a: GridPos, b: GridPos, width: usize, height: usize },
    /// A swap by positions named the same position twice.
    CantSwapSamePositon(GridPos, GridPos),
    /// A pushed row's length does not equal the grid width.
    InvalidRowLength(usize, usize),
}

} // verus!
