//! Integer grid coordinates: `x` is the column (0 at the left edge) and `y` is
//! the row (0 at the bottom row, increasing upward). The same coordinates also
//! address corner nodes of the lattice one larger than the cell grid in each
//! dimension.

use vstd::prelude::*;

verus! {

#[derive(Clone, Copy, PartialEq, Eq, Structural, Hash, PartialOrd, Ord, Debug)]
pub struct GridPos {
    pub y: isize,
    pub x: isize,
}

/// Shorthand constructor for a grid position.
pub fn gp(x: isize, y: isize) -> (r: GridPos)
    ensures
        r == (GridPos { x, y }),
{
    GridPos::new(x, y)
}

impl GridPos {
    pub fn new(x: isize, y: isize) -> (r: Self)
        ensures
            r == (GridPos { x, y }),
    {
        Self { x, y }
    }

    pub fn to_tuple(self) -> (r: (isize, isize))
        ensures
            r == (self.x, self.y),
    {
        let GridPos { y, x } = self;
        (x, y)
    }
}

impl core::ops::Add for GridPos {
    type Output = Self;

    /// Component-wise addition; the sums must stay within `isize`.
    fn add(self, rhs: Self) -> Self::Output {
        GridPos { x: self.x + rhs.x, y: self.y + rhs.y }
    }
}

impl vstd::std_specs::ops::AddSpecImpl for GridPos {
    open spec fn obeys_add_spec() -> bool {
        true
    }

    open spec fn add_req(self, rhs: Self) -> bool {
        &&& isize::MIN <= self.x + rhs.x <= isize::MAX
        &&& isize::MIN <= self.y + rhs.y <= isize::MAX
    }

    open spec fn add_spec(self, rhs: Self) -> Self {
        GridPos { x: (self.x + rhs.x) as isize, y: (self.y + rhs.y) as isize }
    }
}

impl core::ops::Sub for GridPos {
    type Output = Self;

    /// Component-wise subtraction; the differences must stay within `isize`.
    fn sub(self, rhs: Self) -> Self::Output {
        GridPos { x: self.x - rhs.x, y: self.y - rhs.y }
    }
}

impl vstd::std_specs::ops::SubSpecImpl for GridPos {
    open spec fn obeys_sub_spec() -> bool {
        true
    }

    open spec fn sub_req(self, rhs: Self) -> bool {
        &&& isize::MIN <= self.x - rhs.x <= isize::MAX
        &&& isize::MIN <= self.y - rhs.y <= isize::MAX
    }

    open spec fn sub_spec(self, rhs: Self) -> Self {
        GridPos { x: (self.x - rhs.x) as isize, y: (self.y - rhs.y) as isize }
    }
}

} // verus!
