//! The directional relation between two grid positions (one of eight compass
//! directions, the same position, or not adjacent), and the compatibility
//! predicate deciding whether two line fragments connect across a relation.
//!
//! Two fragments connect across a direction exactly when they share a corner
//! node: an endpoint of the first fragment coincides with an endpoint of the
//! second, once the second cell is displaced by the direction's offset.

use vstd::prelude::*;

use crate::grid_pos::GridPos;
use crate::line_fragment::{
    fragment_corner_a, fragment_corner_b, fragment_touches, LineFragment, LineFragmentKind,
};

verus! {

#[derive(Debug, Clone, Copy, PartialEq, Eq, Structural, Hash)]
pub enum Adjacency {
    AboveLeft,
    Above,
    AboveRight,
    Left,
    Same,
    Right,
    BelowLeft,
    Below,
    BelowRight,
    NotAdjacent,
}

/// The relation of a position to another, derived from the component-wise
/// delta `(first - second)`: `Above` means the second position is one row
/// above the first, and so on.
pub open spec fn spec_adjacency_of(dx: int, dy: int) -> Adjacency {
    if dx == 0 && dy == 0 {
        Adjacency::Same
    } else if dx == 0 && dy == -1 {
        Adjacency::Above
    } else if dx == 0 && dy == 1 {
        Adjacency::Below
    } else if dx == -1 && dy == -1 {
        Adjacency::AboveRight
    } else if dx == -1 && dy == 0 {
        Adjacency::Right
    } else if dx == -1 && dy == 1 {
        Adjacency::BelowRight
    } else if dx == 1 && dy == -1 {
        Adjacency::AboveLeft
    } else if dx == 1 && dy == 0 {
        Adjacency::Left
    } else if dx == 1 && dy == 1 {
        Adjacency::BelowLeft
    } else {
        Adjacency::NotAdjacent
    }
}

/// The column offset of the second cell relative to the first under a
/// directional relation (0 for `Same` and `NotAdjacent`).
pub open spec fn adjacency_offset_x(adj: Adjacency) -> int {
    match adj {
        Adjacency::AboveLeft => -1,
        Adjacency::Above => 0,
        Adjacency::AboveRight => 1,
        Adjacency::Left => -1,
        Adjacency::Same => 0,
        Adjacency::Right => 1,
        Adjacency::BelowLeft => -1,
        Adjacency::Below => 0,
        Adjacency::BelowRight => 1,
        Adjacency::NotAdjacent => 0,
    }
}

/// The row offset of the second cell relative to the first under a
/// directional relation (0 for `Same` and `NotAdjacent`).
pub open spec fn adjacency_offset_y(adj: Adjacency) -> int {
    match adj {
        Adjacency::AboveLeft => 1,
        Adjacency::Above => 1,
        Adjacency::AboveRight => 1,
        Adjacency::Left => 0,
        Adjacency::Same => 0,
        Adjacency::Right => 0,
        Adjacency::BelowLeft => -1,
        Adjacency::Below => -1,
        Adjacency::BelowRight => -1,
        Adjacency::NotAdjacent => 0,
    }
}

/// Whether a fragment of kind `ka` in the cell at the origin shares a corner
/// node with a fragment of kind `kb` in the cell displaced by `(ox, oy)`.
pub open spec fn kinds_share_corner(
    ka: LineFragmentKind,
    ox: int,
    oy: int,
    kb: LineFragmentKind,
) -> bool {
    fragment_touches(kb, ox, oy, fragment_corner_a(ka, 0, 0)) || fragment_touches(
        kb,
        ox,
        oy,
        fragment_corner_b(ka, 0, 0),
    )
}

/// Whether two fragment kinds connect across a directional relation: true for
/// `Same` by convention, false for `NotAdjacent`, and corner-node sharing for
/// the eight compass directions.
pub open spec fn kinds_connect(ka: LineFragmentKind, adj: Adjacency, kb: LineFragmentKind) -> bool {
    match adj {
        Adjacency::Same => true,
        Adjacency::NotAdjacent => false,
        _ => kinds_share_corner(ka, adjacency_offset_x(adj), adjacency_offset_y(adj), kb),
    }
}

/// Exhaustive shape-pair compatibility table; agrees with the corner-node
/// geometry in every one of the shape-pair/direction combinations.
pub fn are_line_fragments_connecting(
    lf_a: &LineFragment,
    adjacency: Adjacency,
    lf_b: &LineFragment,
) -> (r: bool)
    ensures
        r == kinds_connect(lf_a.kind, adjacency, lf_b.kind),
{
    if adjacency == Adjacency::Same {
        return true;
    } else if adjacency == Adjacency::NotAdjacent {
        return false;
    }
    match lf_a.kind {
        LineFragmentKind::Caret => {
            if adjacency == Adjacency::AboveLeft || adjacency == Adjacency::Above || adjacency
                == Adjacency::AboveRight {
                return false;
            }
            match lf_b.kind {
                LineFragmentKind::Caret => adjacency == Adjacency::Left || adjacency
                    == Adjacency::Right,
                LineFragmentKind::InvertedCaret => adjacency == Adjacency::BelowLeft || adjacency
                    == Adjacency::Below || adjacency == Adjacency::BelowRight,
                LineFragmentKind::LeftSlash => adjacency == Adjacency::Left || adjacency
                    == Adjacency::Below || adjacency == Adjacency::BelowRight,
                LineFragmentKind::RightSlash => adjacency == Adjacency::Right || adjacency
                    == Adjacency::Below || adjacency == Adjacency::BelowLeft,
            }
        },
        LineFragmentKind::InvertedCaret => {
            if adjacency == Adjacency::BelowLeft || adjacency == Adjacency::Below || adjacency
                == Adjacency::BelowRight {
                return false;
            }
            match lf_b.kind {
                LineFragmentKind::Caret => adjacency == Adjacency::AboveLeft || adjacency
                    == Adjacency::Above || adjacency == Adjacency::AboveRight,
                LineFragmentKind::InvertedCaret => adjacency == Adjacency::Left || adjacency
                    == Adjacency::Right,
                LineFragmentKind::LeftSlash => adjacency == Adjacency::Right || adjacency
                    == Adjacency::Above || adjacency == Adjacency::AboveLeft,
                LineFragmentKind::RightSlash => adjacency == Adjacency::Left || adjacency
                    == Adjacency::Above || adjacency == Adjacency::AboveRight,
            }
        },
        LineFragmentKind::LeftSlash => {
            if adjacency == Adjacency::BelowLeft || adjacency == Adjacency::AboveRight {
                return false;
            }
            match lf_b.kind {
                LineFragmentKind::Caret => adjacency == Adjacency::AboveLeft || adjacency
                    == Adjacency::Above || adjacency == Adjacency::Right,
                LineFragmentKind::InvertedCaret => adjacency == Adjacency::Left || adjacency
                    == Adjacency::Below || adjacency == Adjacency::BelowRight,
                LineFragmentKind::LeftSlash => adjacency == Adjacency::AboveLeft || adjacency
                    == Adjacency::BelowRight,
                LineFragmentKind::RightSlash => adjacency == Adjacency::Left || adjacency
                    == Adjacency::Right || adjacency == Adjacency::Above || adjacency
                    == Adjacency::Below,
            }
        },
        LineFragmentKind::RightSlash => {
            if adjacency == Adjacency::AboveLeft || adjacency == Adjacency::BelowRight {
                return false;
            }
            match lf_b.kind {
                LineFragmentKind::Caret => adjacency == Adjacency::AboveRight || adjacency
                    == Adjacency::Above || adjacency == Adjacency::Left,
                LineFragmentKind::InvertedCaret => adjacency == Adjacency::Right || adjacency
                    == Adjacency::Below || adjacency == Adjacency::BelowLeft,
                LineFragmentKind::LeftSlash => adjacency == Adjacency::Left || adjacency
                    == Adjacency::Right || adjacency == Adjacency::Above || adjacency
                    == Adjacency::Below,
                LineFragmentKind::RightSlash => adjacency == Adjacency::AboveRight || adjacency
                    == Adjacency::BelowLeft,
            }
        },
    }
}

/// The relation of `gp_a` to `gp_b`, computed from the coordinate delta.
pub fn adjacency_of_grid_positions(gp_a: GridPos, gp_b: GridPos) -> (r: Adjacency)
    ensures
        r == spec_adjacency_of(gp_a.x - gp_b.x, gp_a.y - gp_b.y),
{
    let dx: i128 = gp_a.x as i128 - gp_b.x as i128;
    let dy: i128 = gp_a.y as i128 - gp_b.y as i128;
    if dx == 0 && dy == 0 {
        Adjacency::Same
    } else if dx == 0 && dy == -1 {
        Adjacency::Above
    } else if dx == 0 && dy == 1 {
        Adjacency::Below
    } else if dx == -1 && dy == -1 {
        Adjacency::AboveRight
    } else if dx == -1 && dy == 0 {
        Adjacency::Right
    } else if dx == -1 && dy == 1 {
        Adjacency::BelowRight
    } else if dx == 1 && dy == -1 {
        Adjacency::AboveLeft
    } else if dx == 1 && dy == 0 {
        Adjacency::Left
    } else if dx == 1 && dy == 1 {
        Adjacency::BelowLeft
    } else {
        Adjacency::NotAdjacent
    }
}

impl GridPos {
    /// The relation of `self` to `other`: `Above` means `other` is one row
    /// above `self`, and so on.
    pub fn adjacency(&self, other: &Self) -> (r: Adjacency)
        ensures
            r == spec_adjacency_of(self.x - other.x, self.y - other.y),
    {
        adjacency_of_grid_positions(*self, *other)
    }
}

} // verus!
