//! A grid slot: either empty or filled with a line fragment. Empty cells have
//! no corner nodes and never take part in a chain.

use vstd::prelude::*;

use crate::adjacency::{kinds_connect, Adjacency};
use crate::grid_pos::{gp, GridPos};
use crate::line_fragment::{
    fragment_corner_a, fragment_corner_b, fragment_touches, is_fragment_char, is_fragment_letter,
    spec_fragment_from_letter, spec_fragment_to_letter, spec_kind_from_char, spec_kind_to_char,
    LineFragment, LineFragmentKind,
};

verus! {

#[derive(Debug, Clone, Copy, PartialEq, Eq, Structural)]
pub enum Cell {
    Filled(LineFragment),
    Empty,
}

/// The shape occupying a cell, if any; activation flags play no part in it.
pub open spec fn spec_cell_kind(c: Cell) -> Option<LineFragmentKind> {
    match c {
        Cell::Filled(lf) => Some(lf.kind),
        Cell::Empty => None,
    }
}

pub open spec fn spec_cell_is_active(c: Cell) -> bool {
    match c {
        Cell::Filled(lf) => lf.is_active,
        Cell::Empty => false,
    }
}

/// A cell with its activation flag set as given; empty cells are unchanged.
pub open spec fn spec_cell_with_active(c: Cell, active: bool) -> Cell {
    match c {
        Cell::Filled(lf) => Cell::Filled(LineFragment { kind: lf.kind, is_active: active }),
        Cell::Empty => Cell::Empty,
    }
}

/// The characters accepted when building a cell from a shape character.
pub open spec fn is_cell_char(c: char) -> bool {
    c == '.' || is_fragment_char(c)
}

pub open spec fn spec_cell_from_char(c: char) -> Cell {
    if c == '.' {
        Cell::Empty
    } else {
        Cell::Filled(LineFragment { is_active: false, kind: spec_kind_from_char(c) })
    }
}

/// The letters accepted when building a cell from the one-letter encoding.
pub open spec fn is_cell_letter(c: char) -> bool {
    c == '.' || is_fragment_letter(c)
}

pub open spec fn spec_cell_from_letter(c: char) -> Cell {
    if c == '.' {
        Cell::Empty
    } else {
        Cell::Filled(spec_fragment_from_letter(c))
    }
}

pub open spec fn spec_cell_to_letter(c: Cell) -> char {
    match c {
        Cell::Empty => '.',
        Cell::Filled(lf) => spec_fragment_to_letter(lf),
    }
}

impl Cell {
    pub fn is_empty(&self) -> (r: bool)
        ensures
            r == (*self == Cell::Empty),
    {
        match self {
            Cell::Empty => true,
            Cell::Filled(_) => false,
        }
    }

    pub fn is_active(&self) -> (r: bool)
        ensures
            r == spec_cell_is_active(*self),
    {
        match self {
            Cell::Empty => false,
            Cell::Filled(lf) => lf.is_active,
        }
    }

    pub fn to_char(&self) -> (r: char)
        ensures
            r == match spec_cell_kind(*self) {
                Some(k) => spec_kind_to_char(k),
                None => '.',
            },
    {
        match self {
            Cell::Empty => '.',
            Cell::Filled(lf) => lf.to_char(),
        }
    }

    pub fn to_str(&self) -> (r: &'static str)
        ensures
            r@ == seq![spec_cell_to_letter(*self)],
    {
        match self {
            Cell::Empty => {
                proof {
                    reveal_strlit(".");
                }
                let r: &'static str = ".";
                proof {
                    assert(r@ =~= seq![spec_cell_to_letter(*self)]);
                }
                r
            },
            Cell::Filled(lf) => lf.to_str(),
        }
    }

    pub fn from_char(c: &char) -> (r: Self)
        requires
            is_cell_char(*c),
        ensures
            r == spec_cell_from_char(*c),
    {
        if *c == '.' {
            Cell::Empty
        } else {
            let lf = LineFragment::from_char(c);
            Cell::Filled(lf)
        }
    }

    pub fn from_str(cell_str: &str) -> (r: Self)
        requires
            cell_str@.len() == 1,
            is_cell_letter(cell_str@[0]),
        ensures
            r == spec_cell_from_letter(cell_str@[0]),
    {
        let c = cell_str.get_char(0);
        if c == '.' {
            Cell::Empty
        } else {
            let lf = LineFragment::from_str(cell_str);
            Cell::Filled(lf)
        }
    }

    /// Parses the one-letter encoding given as a character.
    pub(crate) fn from_letter(c: char) -> (r: Self)
        requires
            is_cell_letter(c),
        ensures
            r == spec_cell_from_letter(c),
    {
        if c == '.' {
            Cell::Empty
        } else if c == 'C' {
            Cell::Filled(LineFragment { is_active: true, kind: LineFragmentKind::Caret })
        } else if c == 'c' {
            Cell::Filled(LineFragment { is_active: false, kind: LineFragmentKind::Caret })
        } else if c == 'I' {
            Cell::Filled(LineFragment { is_active: true, kind: LineFragmentKind::InvertedCaret })
        } else if c == 'i' {
            Cell::Filled(LineFragment { is_active: false, kind: LineFragmentKind::InvertedCaret })
        } else if c == 'L' {
            Cell::Filled(LineFragment { is_active: true, kind: LineFragmentKind::LeftSlash })
        } else if c == 'l' {
            Cell::Filled(LineFragment { is_active: false, kind: LineFragmentKind::LeftSlash })
        } else if c == 'R' {
            Cell::Filled(LineFragment { is_active: true, kind: LineFragmentKind::RightSlash })
        } else {
            Cell::Filled(LineFragment { is_active: false, kind: LineFragmentKind::RightSlash })
        }
    }

    pub fn activate(&mut self)
        ensures
            *final(self) == spec_cell_with_active(*old(self), true),
    {
        if let Cell::Filled(lf) = self {
            lf.is_active = true;
        }
    }

    pub fn deactivate(&mut self)
        ensures
            *final(self) == spec_cell_with_active(*old(self), false),
    {
        if let Cell::Filled(lf) = self {
            lf.is_active = false;
        }
    }

    /// Whether two cells connect across a relation: false as soon as either
    /// cell is empty.
    pub fn is_connected_to(&self, other: &Cell, adjacency: Adjacency) -> (r: bool)
        ensures
            r == match (spec_cell_kind(*self), spec_cell_kind(*other)) {
                (Some(ka), Some(kb)) => kinds_connect(ka, adjacency, kb),
                _ => false,
            },
    {
        match (self, other) {
            (Cell::Empty, _) | (_, Cell::Empty) => false,
            (Cell::Filled(lf_a), Cell::Filled(lf_b)) => crate::adjacency::are_line_fragments_connecting(
                lf_a,
                adjacency,
                lf_b,
            ),
        }
    }

    /// The two corner nodes a filled cell's fragment spans; an empty cell has
    /// none.
    pub fn corner_nodes(&self, cell_pos: &GridPos) -> (r: Vec<GridPos>)
        requires
            cell_pos.x < isize::MAX,
            cell_pos.y < isize::MAX,
        ensures
            match spec_cell_kind(*self) {
                None => r@.len() == 0,
                Some(k) => {
                    &&& r@.len() == 2
                    &&& (r@[0].x as int, r@[0].y as int) == fragment_corner_a(
                        k,
                        cell_pos.x as int,
                        cell_pos.y as int,
                    )
                    &&& (r@[1].x as int, r@[1].y as int) == fragment_corner_b(
                        k,
                        cell_pos.x as int,
                        cell_pos.y as int,
                    )
                },
            },
    {
        match self {
            Cell::Filled(lf) => match lf.kind {
                LineFragmentKind::Caret => vec![*cell_pos, gp(cell_pos.x + 1, cell_pos.y)],
                LineFragmentKind::InvertedCaret => vec![
                    gp(cell_pos.x, cell_pos.y + 1),
                    gp(cell_pos.x + 1, cell_pos.y + 1),
                ],
                LineFragmentKind::LeftSlash => vec![
                    gp(cell_pos.x, cell_pos.y + 1),
                    gp(cell_pos.x + 1, cell_pos.y),
                ],
                LineFragmentKind::RightSlash => vec![
                    *cell_pos,
                    gp(cell_pos.x + 1, cell_pos.y + 1),
                ],
            },
            Cell::Empty => Vec::new(),
        }
    }

    /// Whether `node_pos` is an endpoint of this cell's fragment.
    pub fn has_corner_node(&self, cell_pos: &GridPos, node_pos: &GridPos) -> (r: bool)
        requires
            cell_pos.x < isize::MAX,
            cell_pos.y < isize::MAX,
        ensures
            r == match spec_cell_kind(*self) {
                None => false,
                Some(k) => fragment_touches(
                    k,
                    cell_pos.x as int,
                    cell_pos.y as int,
                    (node_pos.x as int, node_pos.y as int),
                ),
            },
    {
        let corners = self.corner_nodes(cell_pos);
        if corners.len() == 2 {
            let a = corners[0];
            let b = corners[1];
            (a.x == node_pos.x && a.y == node_pos.y) || (b.x == node_pos.x && b.y == node_pos.y)
        } else {
            false
        }
    }
}

} // verus!
