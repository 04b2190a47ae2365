//! Puzzle-logic core of a falling-block connection game: a rectangular grid of
//! oriented line fragments, where adjacent fragments may connect depending on
//! their shapes, and a fragment is "active" exactly when it lies on an unbroken
//! chain of connected fragments spanning the grid from its left edge to its
//! right edge.

use vstd::prelude::*;

pub mod adjacency;
pub mod cell;
pub mod connectivity;
pub mod error;
pub mod grid;
pub mod grid_algorithms;
pub mod grid_iterator_2d;
pub mod grid_pos;
pub mod layout;
pub mod line_fragment;
mod recalc;

use crate::grid::Grid;

verus! {

/// The standard playfield: 5 columns by 10 rows, all empty.
pub fn new_small_grid() -> (r: Grid)
    ensures
        r.wf(),
        r.width == 5,
        r.height == 10,
        forall |i: int| 0 <= i < r.cells@.len() ==> r.cells@[i] == crate::cell::Cell::Empty,
{
    Grid::new(5, 10)
}

} // verus!
