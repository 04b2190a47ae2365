//! The rectangular cell container: `width * height` cells in row-major order
//! with row 0 at the bottom, together with directional neighbor lookups, cell
//! swapping, row cycling, and the activation recalculation run after every
//! structural mutation.

use vstd::prelude::*;

use crate::cell::{is_cell_char, is_cell_letter, spec_cell_from_char, spec_cell_from_letter, spec_cell_is_active, spec_cell_kind, spec_cell_with_active, Cell};
use crate::connectivity::{grid_kinds, model_of, GridModel};
use crate::error::GunpeyLibError;
use crate::grid_pos::GridPos;
use crate::line_fragment::spec_kind_to_char;

verus! {

#[derive(Debug)]
pub struct Grid {
    pub width: usize,
    pub height: usize,
    pub cells: Vec<Cell>,
}

/// The cell position a linear index denotes in a grid `width` cells wide.
pub fn get_pos_from_index(index: usize, width: usize) -> (r: GridPos)
    requires
        width >= 1,
        index <= isize::MAX as usize,
    ensures
        r.x as int == index as int % width as int,
        r.y as int == index as int / width as int,
{
    proof {
        assert(index as int % width as int <= index as int && 0 <= index as int % width as int
            && index as int / width as int <= index as int && 0 <= index as int / width as int)
            by (nonlinear_arith)
            requires width >= 1, index >= 0;
    }
    let x = (index % width) as isize;
    let y = (index / width) as isize;
    GridPos { x, y }
}

impl Grid {
    /// The shape layout this grid presents to the connectivity model.
    pub open spec fn model(self) -> GridModel {
        GridModel {
            kinds: grid_kinds(self.cells@),
            width: self.width as int,
            height: self.height as int,
        }
    }

    /// Basic well-formedness: positive width, at least two rows, and exactly
    /// one cell per coordinate pair.
    pub open spec fn wf(self) -> bool {
        &&& self.width >= 1
        &&& self.height >= 2
        &&& self.width * self.height < usize::MAX
        &&& self.cells@.len() == self.width * self.height
    }

    /// The linear index a position maps to (possibly out of range).
    pub open spec fn spec_raw_index(self, p: GridPos) -> int {
        p.x + self.width * p.y
    }

    /// The valid linear index of a position, if it has one. A position is in
    /// bounds exactly when its row-major index falls inside the cell
    /// sequence; this is the bound every mutation checks.
    pub open spec fn spec_index_of(self, p: GridPos) -> Option<int> {
        if 0 <= self.spec_raw_index(p) < self.cells@.len() {
            Some(self.spec_raw_index(p))
        } else {
            None
        }
    }

    /// A new all-empty grid.
    pub fn new(width: usize, height: usize) -> (r: Self)
        requires
            width >= 1,
            height >= 2,
            width * height < usize::MAX,
        ensures
            r.wf(),
            r.width == width,
            r.height == height,
            forall |i: int| 0 <= i < r.cells@.len() ==> r.cells@[i] == Cell::Empty,
    {
        let length = width * height;
        let mut cells: Vec<Cell> = Vec::new();
        let mut i: usize = 0;
        while i < length
            invariant
                i <= length,
                cells@.len() == i,
                forall |j: int| 0 <= j < i ==> cells@[j] == Cell::Empty,
            decreases length - i,
        {
            cells.push(Cell::Empty);
            i = i + 1;
        }
        Self { width, height, cells }
    }

    /// A new grid from rows of shape characters given top row first; `.` is
    /// an empty cell. Rows must be nonempty, of equal width, and at least two.
    pub fn new_from_chars(chars: Vec<Vec<char>>) -> (r: Self)
        requires
            chars@.len() >= 2,
            chars@[0]@.len() >= 1,
            forall |j: int| 0 <= j < chars@.len() ==> (#[trigger] chars@[j])@.len()
                == chars@[0]@.len(),
            forall |j: int, i: int|
                0 <= j < chars@.len() && 0 <= i < chars@[0]@.len() ==> is_cell_char(
                    #[trigger] chars@[j]@[i],
                ),
            chars@[0]@.len() * chars@.len() < usize::MAX,
        ensures
            r.wf(),
            r.width == chars@[0]@.len(),
            r.height == chars@.len(),
            forall |k: int|
                0 <= k < r.cells@.len() ==> #[trigger] r.cells@[k] == spec_cell_from_char(
                    chars@[r.height - 1 - k / r.width as int]@[k % r.width as int],
                ),
    {
        let width = chars[0].len();
        let height = chars.len();
        let mut cells: Vec<Cell> = Vec::new();
        let mut row: usize = 0;
        while row < height
            invariant
                width == chars@[0]@.len(),
                height == chars@.len(),
                width >= 1,
                height >= 2,
                width * height < usize::MAX,
                forall |j: int| 0 <= j < chars@.len() ==> (#[trigger] chars@[j])@.len() == width,
                forall |j: int, i: int|
                    0 <= j < chars@.len() && 0 <= i < width ==> is_cell_char(
                        #[trigger] chars@[j]@[i],
                    ),
                row <= height,
                cells@.len() == width * row,
                forall |k: int|
                    0 <= k < cells@.len() ==> #[trigger] cells@[k] == spec_cell_from_char(
                        chars@[height - 1 - k / width as int]@[k % width as int],
                    ),
            decreases height - row,
        {
            let src_row = height - 1 - row;
            let mut col: usize = 0;
            proof {
                assert(width * row + width <= width * height && width * (row + 1) == width * row
                    + width) by (nonlinear_arith)
                    requires width >= 1, 0 <= row < height;
            }
            while col < width
                invariant
                    width == chars@[0]@.len(),
                    height == chars@.len(),
                    width >= 1,
                    height >= 2,
                    width * height < usize::MAX,
                    forall |j: int| 0 <= j < chars@.len() ==> (#[trigger] chars@[j])@.len()
                        == width,
                    forall |j: int, i: int|
                        0 <= j < chars@.len() && 0 <= i < width ==> is_cell_char(
                            #[trigger] chars@[j]@[i],
                        ),
                    row < height,
                    src_row == height - 1 - row,
                    col <= width,
                    width * row + width <= width * height,
                    cells@.len() == width * row + col,
                    forall |k: int|
                        0 <= k < cells@.len() ==> #[trigger] cells@[k] == spec_cell_from_char(
                            chars@[height - 1 - k / width as int]@[k % width as int],
                        ),
                decreases width - col,
            {
                let c = chars[src_row][col];
                cells.push(Cell::from_char(&c));
                proof {
                    let k = cells@.len() - 1;
                    assert(k % width as int == col as int && k / width as int == row as int)
                        by (nonlinear_arith)
                        requires
                            width >= 1,
                            0 <= col < width,
                            row >= 0,
                            k == width * row + col;
                }
                col = col + 1;
            }
            row = row + 1;
        }
        Self { width, height, cells }
    }

    /// A new grid from a textual layout: rows of cell letters given top row
    /// first, with surrounding whitespace (and each row's indentation)
    /// ignored. Only well-formed layouts are accepted — a malformed fixture
    /// is a programming error, not a runtime condition.
    pub fn new_from_str(grid_str: &str) -> (r: Self)
        requires
            crate::layout::valid_layout(grid_str@),
        ensures
            r.wf(),
            r.width == crate::layout::layout_rows(grid_str@)[0].len(),
            r.height == crate::layout::layout_rows(grid_str@).len(),
            forall |k: int|
                0 <= k < r.cells@.len() ==> #[trigger] r.cells@[k] == spec_cell_from_letter(
                    crate::layout::layout_rows(grid_str@)[r.height - 1 - k / r.width as int][k
                        % r.width as int],
                ),
    {
        let ghost lrows = crate::layout::layout_rows(grid_str@);
        let chars = crate::layout::str_to_chars(grid_str);
        let trimmed = crate::layout::trim_chars(&chars);
        let raw_rows = crate::layout::split_rows(&trimmed);
        let mut rows: Vec<Vec<char>> = Vec::new();
        let mut j: usize = 0;
        let nrows = raw_rows.len();
        proof {
            assert(crate::layout::char_rows_view(raw_rows).len() == nrows);
            assert(lrows.len() == nrows);
        }
        while j < nrows
            invariant
                nrows == raw_rows@.len(),
                lrows == crate::layout::layout_rows(grid_str@),
                lrows.len() == nrows,
                forall |jj: int|
                    0 <= jj < nrows ==> lrows[jj] == crate::layout::spec_trim(
                        (#[trigger] raw_rows@[jj])@,
                    ),
                j <= nrows,
                rows@.len() == j,
                forall |jj: int| 0 <= jj < j ==> (#[trigger] rows@[jj])@ == lrows[jj],
            decreases nrows - j,
        {
            let t = crate::layout::trim_chars(&raw_rows[j]);
            rows.push(t);
            j = j + 1;
        }
        let width = rows[0].len();
        let height = rows.len();
        let mut cells: Vec<Cell> = Vec::new();
        let mut row: usize = 0;
        while row < height
            invariant
                lrows == crate::layout::layout_rows(grid_str@),
                crate::layout::valid_layout(grid_str@),
                height == rows@.len(),
                lrows.len() == height,
                forall |jj: int| 0 <= jj < height ==> (#[trigger] rows@[jj])@ == lrows[jj],
                width == lrows[0].len(),
                width >= 1,
                height >= 2,
                width * height < usize::MAX,
                row <= height,
                cells@.len() == width * row,
                forall |k: int|
                    0 <= k < cells@.len() ==> #[trigger] cells@[k] == spec_cell_from_letter(
                        lrows[height - 1 - k / width as int][k % width as int],
                    ),
            decreases height - row,
        {
            let src_row = height - 1 - row;
            let mut col: usize = 0;
            proof {
                assert(width * row + width <= width * height && width * (row + 1) == width * row
                    + width) by (nonlinear_arith)
                    requires width >= 1, 0 <= row < height;
            }
            while col < width
                invariant
                    lrows == crate::layout::layout_rows(grid_str@),
                    crate::layout::valid_layout(grid_str@),
                    height == rows@.len(),
                    lrows.len() == height,
                    forall |jj: int| 0 <= jj < height ==> (#[trigger] rows@[jj])@ == lrows[jj],
                    width == lrows[0].len(),
                    width >= 1,
                    height >= 2,
                    width * height < usize::MAX,
                    row < height,
                    src_row == height - 1 - row,
                    col <= width,
                    width * row + width <= width * height,
                    cells@.len() == width * row + col,
                    forall |k: int|
                        0 <= k < cells@.len() ==> #[trigger] cells@[k] == spec_cell_from_letter(
                            lrows[height - 1 - k / width as int][k % width as int],
                        ),
                decreases width - col,
            {
                let c = rows[src_row][col];
                proof {
                    assert(is_cell_letter(lrows[src_row as int][col as int]));
                }
                cells.push(Cell::from_letter(c));
                proof {
                    let k = cells@.len() - 1;
                    assert(k % width as int == col as int && k / width as int == row as int)
                        by (nonlinear_arith)
                        requires
                            width >= 1,
                            0 <= col < width,
                            row >= 0,
                            k == width * row + col;
                }
                col = col + 1;
            }
            row = row + 1;
        }
        Self { width, height, cells }
    }

    /// The valid linear index of a position, if any: the row-major index must
    /// fall inside the cell sequence.
    pub fn get_index_from_pos(&self, grid_pos: &GridPos) -> (r: Option<usize>)
        requires
            self.wf(),
        ensures
            match r {
                Some(i) => self.spec_index_of(*grid_pos) == Some(i as int),
                None => self.spec_index_of(*grid_pos) is None,
            },
    {
        proof {
            assert(self.width * 2 <= self.width * self.height) by (nonlinear_arith)
                requires self.height >= 2, self.width >= 0;
            assert((self.width as i128) * (grid_pos.y as i128)
                <= 0x4000_0000_0000_0000_0000_0000_0000_0000i128 && (self.width as i128) * (
            grid_pos.y as i128) >= -0x4000_0000_0000_0000_0000_0000_0000_0000i128)
                by (nonlinear_arith)
                requires
                    0 <= self.width as i128 <= 0x8000_0000_0000_0000i128,
                    -0x8000_0000_0000_0000i128 <= grid_pos.y as i128
                        <= 0x7fff_ffff_ffff_ffffi128;
        }
        let i: i128 = grid_pos.x as i128 + self.width as i128 * grid_pos.y as i128;
        if 0 <= i && i < self.cells.len() as i128 {
            Some(i as usize)
        } else {
            None
        }
    }

    pub fn get_pos_from_index(&self, index: usize) -> (r: GridPos)
        requires
            self.width >= 1,
            index <= isize::MAX as usize,
        ensures
            r.x as int == index as int % self.width as int,
            r.y as int == index as int / self.width as int,
    {
        get_pos_from_index(index, self.width)
    }

    pub fn get_cell_at_pos(&self, grid_pos: &GridPos) -> (r: Option<&Cell>)
        requires
            self.wf(),
        ensures
            match r {
                Some(c) => self.spec_index_of(*grid_pos) matches Some(i) && *c == self.cells@[i],
                None => self.spec_index_of(*grid_pos) is None,
            },
    {
        match self.get_index_from_pos(grid_pos) {
            Some(index) => Some(&self.cells[index]),
            None => None,
        }
    }

    /// A mutable reference to the cell at a position, if the position has a
    /// valid index. The caller's writes through the reference become the
    /// grid's new cell; activation is not recalculated.
    pub fn get_mut_cell_at_pos(&mut self, grid_pos: &GridPos) -> (r: Option<&mut Cell>)
        requires
            old(self).wf(),
        ensures
            final(self).width == old(self).width,
            final(self).height == old(self).height,
            match r {
                Some(c) => {
                    &&& old(self).spec_index_of(*grid_pos) is Some
                    &&& *c == old(self).cells@[old(self).spec_index_of(*grid_pos)->Some_0]
                    &&& final(self).cells@ == old(self).cells@.update(
                        old(self).spec_index_of(*grid_pos)->Some_0,
                        *final(c),
                    )
                },
                None => old(self).spec_index_of(*grid_pos) is None && *final(self) == *old(self),
            },
    {
        match self.get_index_from_pos(grid_pos) {
            Some(index) => Some(&mut self.cells[index]),
            None => None,
        }
    }

    /// Whether the fragment at a position is active; the position must be
    /// valid.
    pub fn is_cell_active(&self, cell_pos: &GridPos) -> (r: bool)
        requires
            self.wf(),
            self.spec_index_of(*cell_pos) is Some,
        ensures
            r == spec_cell_is_active(self.cells@[self.spec_index_of(*cell_pos)->Some_0]),
    {
        let cell_index = self.get_index_from_pos(cell_pos).unwrap();
        self.cells[cell_index].is_active()
    }

    /// Whether the cell at a position is empty; the position must be valid.
    pub fn is_cell_empty(&self, cell_pos: &GridPos) -> (r: bool)
        requires
            self.wf(),
            self.spec_index_of(*cell_pos) is Some,
        ensures
            r == (self.cells@[self.spec_index_of(*cell_pos)->Some_0] == Cell::Empty),
    {
        let cell_index = self.get_index_from_pos(cell_pos).unwrap();
        self.cells[cell_index].is_empty()
    }

    /// The position one row below, unless the position is on the bottom row.
    pub open spec fn spec_below(self, p: GridPos) -> Option<GridPos> {
        if p.y == 0 {
            None
        } else {
            Some(GridPos { x: p.x, y: (p.y - 1) as isize })
        }
    }

    /// The position one row above, unless the position is on the top row.
    pub open spec fn spec_above(self, p: GridPos) -> Option<GridPos> {
        if p.y == self.height - 1 {
            None
        } else {
            Some(GridPos { x: p.x, y: (p.y + 1) as isize })
        }
    }

    /// The position one column right, unless the position is on the rightmost
    /// column.
    pub open spec fn spec_right(self, p: GridPos) -> Option<GridPos> {
        if p.x == self.width - 1 {
            None
        } else {
            Some(GridPos { x: (p.x + 1) as isize, y: p.y })
        }
    }

    /// The position one column left, unless the position is on the leftmost
    /// column.
    pub open spec fn spec_left(self, p: GridPos) -> Option<GridPos> {
        if p.x == 0 {
            None
        } else {
            Some(GridPos { x: (p.x - 1) as isize, y: p.y })
        }
    }

    pub fn below(&self, grid_pos: GridPos) -> (r: Option<GridPos>)
        requires
            grid_pos.y > isize::MIN,
        ensures
            r == self.spec_below(grid_pos),
    {
        if grid_pos.y == 0 {
            None
        } else {
            Some(GridPos { x: grid_pos.x, y: grid_pos.y - 1 })
        }
    }

    pub fn above(&self, grid_pos: GridPos) -> (r: Option<GridPos>)
        requires
            grid_pos.y < isize::MAX,
        ensures
            r == self.spec_above(grid_pos),
    {
        if grid_pos.y as i128 == self.height as i128 - 1 {
            None
        } else {
            Some(GridPos { x: grid_pos.x, y: grid_pos.y + 1 })
        }
    }

    pub fn right(&self, grid_pos: GridPos) -> (r: Option<GridPos>)
        requires
            grid_pos.x < isize::MAX,
        ensures
            r == self.spec_right(grid_pos),
    {
        if grid_pos.x as i128 == self.width as i128 - 1 {
            None
        } else {
            Some(GridPos { x: grid_pos.x + 1, y: grid_pos.y })
        }
    }

    pub fn left(&self, grid_pos: GridPos) -> (r: Option<GridPos>)
        requires
            grid_pos.x > isize::MIN,
        ensures
            r == self.spec_left(grid_pos),
    {
        if grid_pos.x == 0 {
            None
        } else {
            Some(GridPos { x: grid_pos.x - 1, y: grid_pos.y })
        }
    }

    pub open spec fn spec_above_right(self, p: GridPos) -> Option<GridPos> {
        match self.spec_above(p) {
            Some(q) => self.spec_right(q),
            None => None,
        }
    }

    pub open spec fn spec_below_right(self, p: GridPos) -> Option<GridPos> {
        match self.spec_below(p) {
            Some(q) => self.spec_right(q),
            None => None,
        }
    }

    pub open spec fn spec_above_left(self, p: GridPos) -> Option<GridPos> {
        match self.spec_above(p) {
            Some(q) => self.spec_left(q),
            None => None,
        }
    }

    pub open spec fn spec_below_left(self, p: GridPos) -> Option<GridPos> {
        match self.spec_below(p) {
            Some(q) => self.spec_left(q),
            None => None,
        }
    }

    pub fn above_right(&self, grid_pos: GridPos) -> (r: Option<GridPos>)
        requires
            grid_pos.x < isize::MAX,
            grid_pos.y < isize::MAX,
        ensures
            r == self.spec_above_right(grid_pos),
    {
        match self.above(grid_pos) {
            Some(q) => self.right(q),
            None => None,
        }
    }

    pub fn below_right(&self, grid_pos: GridPos) -> (r: Option<GridPos>)
        requires
            grid_pos.x < isize::MAX,
            grid_pos.y > isize::MIN,
        ensures
            r == self.spec_below_right(grid_pos),
    {
        match self.below(grid_pos) {
            Some(q) => self.right(q),
            None => None,
        }
    }

    pub fn above_left(&self, grid_pos: GridPos) -> (r: Option<GridPos>)
        requires
            grid_pos.x > isize::MIN,
            grid_pos.y < isize::MAX,
        ensures
            r == self.spec_above_left(grid_pos),
    {
        match self.above(grid_pos) {
            Some(q) => self.left(q),
            None => None,
        }
    }

    pub fn below_left(&self, grid_pos: GridPos) -> (r: Option<GridPos>)
        requires
            grid_pos.x > isize::MIN,
            grid_pos.y > isize::MIN,
        ensures
            r == self.spec_below_left(grid_pos),
    {
        match self.below(grid_pos) {
            Some(q) => self.left(q),
            None => None,
        }
    }

    /// What a grid looks like after activation has been recalculated over the
    /// cell layout `base`: same dimensions, and every cell is the
    /// corresponding cell of `base` with its activation flag set exactly when
    /// the model of `base` declares the position active.
    pub open spec fn is_recalculated_of(self, base: Seq<Cell>, w: int, h: int) -> bool {
        let mb = model_of(base, w, h);
        &&& self.width == w
        &&& self.height == h
        &&& self.cells@.len() == base.len()
        &&& forall |x: int, y: int|
            mb.in_cell_bounds(x, y) ==> #[trigger] self.cells@[mb.cell_index(x, y)]
                == spec_cell_with_active(base[mb.cell_index(x, y)], mb.spec_active(x, y))
    }

    /// The cell sequence with the contents at two indexes exchanged.
    pub open spec fn spec_swapped_cells(self, ia: int, ib: int) -> Seq<Cell> {
        self.cells@.update(ia, self.cells@[ib]).update(ib, self.cells@[ia])
    }

    /// Recomputes, for every filled cell, whether its fragment lies on a
    /// chain connecting the grid's left edge to its right edge, and sets the
    /// activation flags accordingly. Total: the layout itself is unchanged.
    pub fn recalculate_active_cells(&mut self)
        requires
            old(self).wf(),
        ensures
            final(self).wf(),
            final(self).width == old(self).width,
            final(self).height == old(self).height,
            final(self).is_recalculated_of(
                old(self).cells@,
                old(self).width as int,
                old(self).height as int,
            ),
            grid_kinds(final(self).cells@) == grid_kinds(old(self).cells@),
    {
        let ghost m = self.model();
        let flags = crate::recalc::compute_active_flags(self);
        let len = self.cells.len();
        let mut k: usize = 0;
        while k < len
            invariant
                self.width == old(self).width,
                self.height == old(self).height,
                self.cells@.len() == len,
                len == old(self).cells@.len(),
                flags@.len() == len,
                m == old(self).model(),
                forall |x: int, y: int|
                    m.in_cell_bounds(x, y) ==> #[trigger] flags@[m.cell_index(x, y)]
                        == m.spec_active(x, y),
                k <= len,
                forall |j: int| k <= j < len ==> #[trigger] self.cells@[j] == old(self).cells@[j],
                forall |j: int| 0 <= j < k ==> #[trigger] self.cells@[j] == spec_cell_with_active(
                    old(self).cells@[j],
                    flags@[j],
                ),
            decreases len - k,
        {
            let mut c = self.cells[k];
            if flags[k] {
                c.activate();
            } else {
                c.deactivate();
            }
            self.cells[k] = c;
            k = k + 1;
        }
        proof {
            assert forall |x: int, y: int| m.in_cell_bounds(x, y) implies #[trigger] self.cells@[
            m.cell_index(x, y)
            ] == spec_cell_with_active(
                old(self).cells@[m.cell_index(x, y)],
                m.spec_active(x, y),
            ) by {
                crate::recalc::lemma_cell_index_bound(m.width, m.height, x, y);
            }
            assert(grid_kinds(self.cells@) =~= grid_kinds(old(self).cells@));
        }
    }

    /// Exchanges the cells at two linear indexes without recalculating.
    fn swap_cells_by_index(&mut self, cell_index_a: usize, cell_index_b: usize) -> (r: Result<
        (),
        GunpeyLibError,
    >)
        ensures
            final(self).width == old(self).width,
            final(self).height == old(self).height,
            cell_index_a == cell_index_b ==> r == Err::<(), GunpeyLibError>(
                GunpeyLibError::CantSwapSameIndex(cell_index_a, cell_index_b),
            ) && final(self).cells@ == old(self).cells@,
            cell_index_a != cell_index_b && !(cell_index_a < old(self).cells@.len()
                && cell_index_b < old(self).cells@.len()) ==> r == Err::<(), GunpeyLibError>(
                GunpeyLibError::CantSwapBadIndex {
                    a: cell_index_a,
                    b: cell_index_b,
                    length: old(self).cells@.len() as usize,
                },
            ) && final(self).cells@ == old(self).cells@,
            cell_index_a != cell_index_b && cell_index_a < old(self).cells@.len() && cell_index_b
                < old(self).cells@.len() ==> r == Ok::<(), GunpeyLibError>(()) && final(self).cells@ == old(self).spec_swapped_cells(cell_index_a as int, cell_index_b as int),
    {
        if cell_index_a == cell_index_b {
            return Err(GunpeyLibError::CantSwapSameIndex(cell_index_a, cell_index_b));
        }
        if cell_index_a < self.cells.len() && cell_index_b < self.cells.len() {
            let ca = self.cells[cell_index_a];
            let cb = self.cells[cell_index_b];
            self.cells[cell_index_a] = cb;
            self.cells[cell_index_b] = ca;
            Ok(())
        } else {
            Err(GunpeyLibError::CantSwapBadIndex {
                a: cell_index_a,
                b: cell_index_b,
                length: self.cells.len(),
            })
        }
    }

    /// Exchanges the cells at two positions and recalculates activation.
    /// Fails without touching the grid when the two positions are equal, when
    /// either maps to no valid linear index, or when both map to the same
    /// index.
    pub fn swap_cells(&mut self, cell_pos_a: GridPos, cell_pos_b: GridPos) -> (r: Result<
        (),
        GunpeyLibError,
    >)
        requires
            old(self).wf(),
        ensures
            final(self).wf(),
            final(self).width == old(self).width,
            final(self).height == old(self).height,
            cell_pos_a == cell_pos_b ==> r == Err::<(), GunpeyLibError>(
                GunpeyLibError::CantSwapSamePositon(cell_pos_a, cell_pos_b),
            ) && final(self).cells@ == old(self).cells@,
            cell_pos_a != cell_pos_b && (old(self).spec_index_of(cell_pos_a) is None || old(self).spec_index_of(cell_pos_b) is None) ==> r == Err::<(), GunpeyLibError>(
                GunpeyLibError::CantSwapBadPosition {
                    a: cell_pos_a,
                    b: cell_pos_b,
                    width: old(self).width,
                    height: old(self).height,
                },
            ) && final(self).cells@ == old(self).cells@,
            cell_pos_a != cell_pos_b && old(self).spec_index_of(cell_pos_a) is Some && old(self).spec_index_of(cell_pos_b) is Some && old(self).spec_index_of(cell_pos_a) == old(self).spec_index_of(cell_pos_b) ==> r == Err::<(), GunpeyLibError>(
                GunpeyLibError::CantSwapSameIndex(
                    old(self).spec_index_of(cell_pos_a)->Some_0 as usize,
                    old(self).spec_index_of(cell_pos_b)->Some_0 as usize,
                ),
            ) && final(self).cells@ == old(self).cells@,
            cell_pos_a != cell_pos_b && old(self).spec_index_of(cell_pos_a) is Some && old(self).spec_index_of(cell_pos_b) is Some && old(self).spec_index_of(cell_pos_a) != old(self).spec_index_of(cell_pos_b) ==> r == Ok::<(), GunpeyLibError>(()) && final(self).is_recalculated_of(
                old(self).spec_swapped_cells(
                    old(self).spec_index_of(cell_pos_a)->Some_0,
                    old(self).spec_index_of(cell_pos_b)->Some_0,
                ),
                old(self).width as int,
                old(self).height as int,
            ),
    {
        if cell_pos_a.x == cell_pos_b.x && cell_pos_a.y == cell_pos_b.y {
            return Err(GunpeyLibError::CantSwapSamePositon(cell_pos_a, cell_pos_b));
        }
        let ia_opt = self.get_index_from_pos(&cell_pos_a);
        let ib_opt = self.get_index_from_pos(&cell_pos_b);
        match (ia_opt, ib_opt) {
            (Some(cell_index_a), Some(cell_index_b)) => {
                let res = self.swap_cells_by_index(cell_index_a, cell_index_b);
                if res.is_ok() {
                    self.recalculate_active_cells();
                }
                res
            },
            _ => Err(GunpeyLibError::CantSwapBadPosition {
                a: cell_pos_a,
                b: cell_pos_b,
                width: self.width,
                height: self.height,
            }),
        }
    }

    /// Overwrites the cell at a position and recalculates activation; a
    /// position with no valid index leaves the grid untouched.
    pub fn set_cell(&mut self, grid_pos: &GridPos, cell: Cell)
        requires
            old(self).wf(),
        ensures
            final(self).wf(),
            final(self).width == old(self).width,
            final(self).height == old(self).height,
            old(self).spec_index_of(*grid_pos) is None ==> final(self).cells@ == old(self).cells@,
            old(self).spec_index_of(*grid_pos) is Some ==> final(self).is_recalculated_of(
                old(self).cells@.update(old(self).spec_index_of(*grid_pos)->Some_0, cell),
                old(self).width as int,
                old(self).height as int,
            ),
    {
        match self.get_index_from_pos(grid_pos) {
            Some(i) => {
                self.cells[i] = cell;
                self.recalculate_active_cells();
            },
            None => {},
        }
    }

    /// Removes and returns the topmost row (pure extraction, no
    /// recalculation). The grid is left one row short until a new bottom row
    /// is pushed.
    pub fn pop_top_row(&mut self) -> (r: Vec<Cell>)
        requires
            old(self).wf(),
        ensures
            final(self).width == old(self).width,
            final(self).height == old(self).height,
            final(self).cells@ == old(self).cells@.subrange(
                0,
                old(self).width * (old(self).height - 1),
            ),
            r@ == old(self).cells@.subrange(
                old(self).width * (old(self).height - 1),
                old(self).cells@.len() as int,
            ),
    {
        proof {
            let w = self.width as int;
            let h = self.height as int;
            assert((h - 1) * w == w * (h - 1) && w * (h - 1) + w == w * h) by (nonlinear_arith);
        }
        let y = self.height - 1;
        let start_of_last_row = y * self.width;
        self.cells.split_off(start_of_last_row)
    }

    /// Prepends a new bottom row to a grid whose top row has been popped,
    /// shifting every remaining row up by one, then recalculates activation.
    /// Fails with `InvalidRowLength`, leaving the grid untouched, when the
    /// row's length is not the grid width.
    pub fn push_bottom_row(&mut self, new_row: Vec<Cell>) -> (r: Result<(), GunpeyLibError>)
        requires
            old(self).width >= 1,
            old(self).height >= 2,
            old(self).width * old(self).height < usize::MAX,
            old(self).cells@.len() == old(self).width * (old(self).height - 1),
        ensures
            final(self).width == old(self).width,
            final(self).height == old(self).height,
            new_row@.len() != old(self).width ==> r == Err::<(), GunpeyLibError>(
                GunpeyLibError::InvalidRowLength(new_row@.len() as usize, old(self).width),
            ) && final(self).cells@ == old(self).cells@,
            new_row@.len() == old(self).width ==> r == Ok::<(), GunpeyLibError>(()) && final(self).wf() && final(self).is_recalculated_of(
                new_row@ + old(self).cells@,
                old(self).width as int,
                old(self).height as int,
            ),
    {
        if new_row.len() != self.width {
            return Err(GunpeyLibError::InvalidRowLength(new_row.len(), self.width));
        }
        proof {
            let w = self.width as int;
            let h = self.height as int;
            assert(w + w * (h - 1) == w * h) by (nonlinear_arith);
        }
        let mut cells = new_row;
        cells.append(&mut self.cells);
        self.cells = cells;
        self.recalculate_active_cells();
        Ok(())
    }

    /// The rows from top to bottom, each row's cells from left to right — the
    /// order a renderer draws them in.
    pub fn cell_rows_in_render_order(&self) -> (r: Vec<Vec<Cell>>)
        requires
            self.wf(),
        ensures
            r@.len() == self.height,
            forall |ri: int| 0 <= ri < self.height ==> #[trigger] r@[ri]@.len() == self.width,
            forall |ri: int, ci: int|
                0 <= ri < self.height && 0 <= ci < self.width ==> #[trigger] r@[ri]@[ci]
                    == self.cells@[ci + self.width * (self.height - 1 - ri)],
    {
        let mut rows: Vec<Vec<Cell>> = Vec::new();
        let mut ri: usize = 0;
        while ri < self.height
            invariant
                self.wf(),
                ri <= self.height,
                rows@.len() == ri,
                forall |k: int| 0 <= k < ri ==> #[trigger] rows@[k]@.len() == self.width,
                forall |k: int, ci: int|
                    0 <= k < ri && 0 <= ci < self.width ==> #[trigger] rows@[k]@[ci]
                        == self.cells@[ci + self.width * (self.height - 1 - k)],
            decreases self.height - ri,
        {
            let y = self.height - 1 - ri;
            let mut row: Vec<Cell> = Vec::new();
            let mut ci: usize = 0;
            while ci < self.width
                invariant
                    self.wf(),
                    y == self.height - 1 - ri,
                    ri < self.height,
                    ci <= self.width,
                    row@.len() == ci,
                    forall |k: int| 0 <= k < ci ==> #[trigger] row@[k]
                        == self.cells@[k + self.width * (self.height - 1 - ri)],
                decreases self.width - ci,
            {
                proof {
                    assert(ci + self.width * y < self.width * (y + 1) <= self.width * self.height)
                        by (nonlinear_arith)
                        requires ci < self.width, 0 <= y, y + 1 <= self.height, self.width >= 1;
                }
                row.push(self.cells[ci + self.width * y]);
                ci = ci + 1;
            }
            rows.push(row);
            ri = ri + 1;
        }
        rows
    }

    /// The grid as shape characters, rows from top to bottom.
    pub fn as_chars(&self) -> (r: Vec<Vec<char>>)
        requires
            self.wf(),
        ensures
            r@.len() == self.height,
            forall |ri: int| 0 <= ri < self.height ==> #[trigger] r@[ri]@.len() == self.width,
            forall |ri: int, ci: int|
                0 <= ri < self.height && 0 <= ci < self.width ==> #[trigger] r@[ri]@[ci] == match
                    spec_cell_kind(self.cells@[ci + self.width * (self.height - 1 - ri)]) {
                    Some(k) => spec_kind_to_char(k),
                    None => '.',
                },
    {
        let rows = self.cell_rows_in_render_order();
        let mut out: Vec<Vec<char>> = Vec::new();
        let mut ri: usize = 0;
        while ri < rows.len()
            invariant
                rows@.len() == self.height,
                forall |k: int| 0 <= k < self.height ==> #[trigger] rows@[k]@.len() == self.width,
                ri <= rows@.len(),
                out@.len() == ri,
                forall |k: int| 0 <= k < ri ==> #[trigger] out@[k]@.len() == self.width,
                forall |k: int, ci: int|
                    0 <= k < ri && 0 <= ci < self.width ==> #[trigger] out@[k]@[ci] == match
                        spec_cell_kind(rows@[k]@[ci]) {
                        Some(kk) => spec_kind_to_char(kk),
                        None => '.',
                    },
            decreases rows@.len() - ri,
        {
            let row = &rows[ri];
            let mut out_row: Vec<char> = Vec::new();
            let mut ci: usize = 0;
            while ci < row.len()
                invariant
                    row@.len() == self.width,
                    ci <= row@.len(),
                    out_row@.len() == ci,
                    forall |k: int| 0 <= k < ci ==> #[trigger] out_row@[k] == match spec_cell_kind(
                        row@[k],
                    ) {
                        Some(kk) => spec_kind_to_char(kk),
                        None => '.',
                    },
                decreases row@.len() - ci,
            {
                out_row.push(row[ci].to_char());
                ci = ci + 1;
            }
            out.push(out_row);
            ri = ri + 1;
        }
        out
    }

    /// The activation flags as a 0/1 matrix, rows from top to bottom.
    pub fn as_active_bitmask(&self) -> (r: Vec<Vec<u8>>)
        requires
            self.wf(),
        ensures
            r@.len() == self.height,
            forall |ri: int| 0 <= ri < self.height ==> #[trigger] r@[ri]@.len() == self.width,
            forall |ri: int, ci: int|
                0 <= ri < self.height && 0 <= ci < self.width ==> #[trigger] r@[ri]@[ci] == (
                if spec_cell_is_active(self.cells@[ci + self.width * (self.height - 1 - ri)]) {
                    1u8
                } else {
                    0u8
                }),
    {
        let rows = self.cell_rows_in_render_order();
        let mut out: Vec<Vec<u8>> = Vec::new();
        let mut ri: usize = 0;
        while ri < rows.len()
            invariant
                rows@.len() == self.height,
                forall |k: int| 0 <= k < self.height ==> #[trigger] rows@[k]@.len() == self.width,
                ri <= rows@.len(),
                out@.len() == ri,
                forall |k: int| 0 <= k < ri ==> #[trigger] out@[k]@.len() == self.width,
                forall |k: int, ci: int|
                    0 <= k < ri && 0 <= ci < self.width ==> #[trigger] out@[k]@[ci] == (
                    if spec_cell_is_active(rows@[k]@[ci]) {
                        1u8
                    } else {
                        0u8
                    }),
            decreases rows@.len() - ri,
        {
            let row = &rows[ri];
            let mut out_row: Vec<u8> = Vec::new();
            let mut ci: usize = 0;
            while ci < row.len()
                invariant
                    row@.len() == self.width,
                    ci <= row@.len(),
                    out_row@.len() == ci,
                    forall |k: int| 0 <= k < ci ==> #[trigger] out_row@[k] == (
                    if spec_cell_is_active(row@[k]) {
                        1u8
                    } else {
                        0u8
                    }),
                decreases row@.len() - ci,
            {
                let bit: u8 = if row[ci].is_active() {
                    1
                } else {
                    0
                };
                out_row.push(bit);
                ci = ci + 1;
            }
            out.push(out_row);
            ri = ri + 1;
        }
        out
    }

    /// A grid whose activation flags already agree with its own model — the
    /// state every mutation leaves behind.
    pub open spec fn activation_consistent(self) -> bool {
        self.is_recalculated_of(self.cells@, self.width as int, self.height as int)
    }

    /// Whether the cells at two positions connect: both positions must have
    /// valid indexes and hold fragments compatible across their relation.
    pub open spec fn spec_cells_are_connecting(self, a: GridPos, b: GridPos) -> bool {
        match (self.spec_index_of(a), self.spec_index_of(b)) {
            (Some(ia), Some(ib)) => match (
                spec_cell_kind(self.cells@[ia]),
                spec_cell_kind(self.cells@[ib]),
            ) {
                (Some(ka), Some(kb)) => crate::adjacency::kinds_connect(
                    ka,
                    crate::adjacency::spec_adjacency_of(a.x - b.x, a.y - b.y),
                    kb,
                ),
                _ => false,
            },
            _ => false,
        }
    }

    /// An ordered pair of the connectivity edge list: a filled cell and a
    /// distinct neighboring filled cell whose fragment connects to it.
    pub open spec fn spec_is_edge(self, p: GridPos, q: GridPos) -> bool {
        &&& self.model().in_cell_bounds(p.x as int, p.y as int)
        &&& self.model().in_cell_bounds(q.x as int, q.y as int)
        &&& p != q
        &&& self.model().cells_connect(p.x as int, p.y as int, q.x as int, q.y as int)
    }

    /// The position one candidate step away from `p`.
    pub open spec fn spec_offset_pos(p: GridPos, dx: int, dy: int) -> GridPos {
        GridPos { x: (p.x + dx) as isize, y: (p.y + dy) as isize }
    }

    /// Pushes `(p, p + (dx, dy))` onto the edge list when that pair is an
    /// edge.
    fn try_edge(&self, r: &mut Vec<(GridPos, GridPos)>, p: GridPos, dx: isize, dy: isize)
        requires
            self.wf(),
            self.cells@.len() <= isize::MAX as usize,
            0 <= p.x < self.width,
            0 <= p.y < self.height,
            -1 <= dx <= 1,
            -1 <= dy <= 1,
            !(dx == 0 && dy == 0),
        ensures
            forall |e: (GridPos, GridPos)| #[trigger]
                final(r)@.contains(e) <==> (old(r)@.contains(e) || (self.spec_is_edge(
                    p,
                    Self::spec_offset_pos(p, dx as int, dy as int),
                ) && e == (p, Self::spec_offset_pos(p, dx as int, dy as int)))),
    {
        let ghost m = self.model();
        proof {
            assert(self.width <= self.width * self.height && self.height <= self.width
                * self.height) by (nonlinear_arith)
                requires self.width >= 1, self.height >= 1;
        }
        let qx = p.x + dx;
        let qy = p.y + dy;
        let ghost q_spec = Self::spec_offset_pos(p, dx as int, dy as int);
        let mut pushed = false;
        if 0 <= qx && (qx as i128) < self.width as i128 && 0 <= qy && (qy as i128) < self.height
            as i128 {
            let q = GridPos { x: qx, y: qy };
            proof {
                assert(q == q_spec);
                crate::recalc::lemma_cell_index_bound(
                    m.width,
                    m.height,
                    p.x as int,
                    p.y as int,
                );
                crate::recalc::lemma_cell_index_bound(
                    m.width,
                    m.height,
                    q.x as int,
                    q.y as int,
                );
            }
            if self.cells_are_connecting(&(p, q)) {
                r.push((p, q));
                pushed = true;
            }
            proof {
                assert(self.spec_cells_are_connecting(p, q) == m.cells_connect(
                    p.x as int,
                    p.y as int,
                    q.x as int,
                    q.y as int,
                ));
                assert(pushed == self.spec_is_edge(p, q_spec));
            }
        } else {
            proof {
                assert(!self.spec_is_edge(p, q_spec));
            }
        }
        proof {
            if pushed {
                assert forall |e: (GridPos, GridPos)| #[trigger]
                    r@.contains(e) <==> (old(r)@.contains(e) || (self.spec_is_edge(p, q_spec) && e
                        == (p, q_spec))) by {
                    lemma_pair_push_contains(old(r)@, (p, q_spec), e);
                }
            }
        }
    }

    /// Positions strictly before `(x, y)` in row-major scan order.
    spec fn spec_edge_scanned(p: GridPos, y: int, x: int) -> bool {
        p.y < y || (p.y == y && p.x < x)
    }

    /// The connectivity edge list: every ordered pair of a filled cell and a
    /// distinct neighboring cell whose fragment connects to it, gathered cell
    /// by cell in row-major order.
    pub fn edges(&self) -> (r: Vec<(GridPos, GridPos)>)
        requires
            self.wf(),
            self.cells@.len() <= isize::MAX as usize,
        ensures
            forall |p: GridPos, q: GridPos| #[trigger]
                r@.contains((p, q)) <==> self.spec_is_edge(p, q),
    {
        let ghost m = self.model();
        let w = self.width;
        let h = self.height;
        proof {
            assert(w <= w * h && h <= w * h) by (nonlinear_arith)
                requires w >= 1, h >= 1;
        }
        let mut r: Vec<(GridPos, GridPos)> = Vec::new();
        let mut y: usize = 0;
        while y < h
            invariant
                self.wf(),
                m == self.model(),
                w == self.width,
                h == self.height,
                self.cells@.len() <= isize::MAX as usize,
                w <= isize::MAX as usize,
                h <= isize::MAX as usize,
                y <= h,
                forall |pp: GridPos, qq: GridPos| #[trigger]
                    r@.contains((pp, qq)) <==> (self.spec_is_edge(pp, qq) && Self::spec_edge_scanned(
                        pp,
                        y as int,
                        0,
                    )),
            decreases h - y,
        {
            let mut x: usize = 0;
            while x < w
                invariant
                    self.wf(),
                    m == self.model(),
                    w == self.width,
                    h == self.height,
                    self.cells@.len() <= isize::MAX as usize,
                    w <= isize::MAX as usize,
                    h <= isize::MAX as usize,
                    y < h,
                    x <= w,
                    forall |pp: GridPos, qq: GridPos| #[trigger]
                        r@.contains((pp, qq)) <==> (self.spec_is_edge(pp, qq)
                            && Self::spec_edge_scanned(pp, y as int, x as int)),
                decreases w - x,
            {
                proof {
                    crate::recalc::lemma_cell_index_bound(m.width, m.height, x as int, y as int);
                }
                let cell = self.cells[x + w * y];
                match cell {
                    Cell::Empty => {
                        proof {
                            assert forall |pp: GridPos, qq: GridPos| #[trigger]
                                r@.contains((pp, qq)) <==> (self.spec_is_edge(pp, qq)
                                    && Self::spec_edge_scanned(pp, y as int, x as int + 1)) by {
                                if self.spec_is_edge(pp, qq) && pp.x as int == x as int && pp.y
                                    as int == y as int {
                                    assert(m.kind_at(pp.x as int, pp.y as int) is None);
                                }
                            }
                        }
                    },
                    Cell::Filled(lf) => {
                        let p = GridPos { x: x as isize, y: y as isize };
                        match lf.kind {
                            crate::line_fragment::LineFragmentKind::Caret => {
                                self.try_edge(&mut r, p, -1, 0);
                                self.try_edge(&mut r, p, -1, -1);
                                self.try_edge(&mut r, p, 0, -1);
                                self.try_edge(&mut r, p, 1, -1);
                                self.try_edge(&mut r, p, 1, 0);
                            },
                            crate::line_fragment::LineFragmentKind::InvertedCaret => {
                                self.try_edge(&mut r, p, -1, 0);
                                self.try_edge(&mut r, p, -1, 1);
                                self.try_edge(&mut r, p, 0, 1);
                                self.try_edge(&mut r, p, 1, 1);
                                self.try_edge(&mut r, p, 1, 0);
                            },
                            crate::line_fragment::LineFragmentKind::LeftSlash => {
                                self.try_edge(&mut r, p, -1, 0);
                                self.try_edge(&mut r, p, -1, 1);
                                self.try_edge(&mut r, p, 0, 1);
                                self.try_edge(&mut r, p, 1, 0);
                                self.try_edge(&mut r, p, 1, -1);
                                self.try_edge(&mut r, p, 0, -1);
                            },
                            crate::line_fragment::LineFragmentKind::RightSlash => {
                                self.try_edge(&mut r, p, -1, 0);
                                self.try_edge(&mut r, p, -1, -1);
                                self.try_edge(&mut r, p, 0, -1);
                                self.try_edge(&mut r, p, 0, 1);
                                self.try_edge(&mut r, p, 1, 1);
                                self.try_edge(&mut r, p, 1, 0);
                            },
                        }
                        proof {
                            assert(m.kind_at(x as int, y as int) == Some(lf.kind));
                            assert forall |pp: GridPos, qq: GridPos| #[trigger]
                                r@.contains((pp, qq)) <==> (self.spec_is_edge(pp, qq)
                                    && Self::spec_edge_scanned(pp, y as int, x as int + 1)) by {
                                if self.spec_is_edge(pp, qq) && pp.x as int == x as int && pp.y
                                    as int == y as int {
                                    assert(pp == p);
                                    let ddx = qq.x as int - pp.x as int;
                                    let ddy = qq.y as int - pp.y as int;
                                    if -1 <= ddx <= 1 && -1 <= ddy <= 1 && !(ddx == 0 && ddy
                                        == 0) {
                                        assert(qq == Self::spec_offset_pos(p, ddx, ddy));
                                    } else {
                                        assert(crate::adjacency::spec_adjacency_of(-ddx, -ddy)
                                            == crate::adjacency::Adjacency::NotAdjacent || (ddx
                                            == 0 && ddy == 0));
                                        assert(false);
                                    }
                                }
                            }
                        }
                    },
                }
                x = x + 1;
            }
            proof {
                assert forall |pp: GridPos, qq: GridPos| #[trigger]
                    r@.contains((pp, qq)) <==> (self.spec_is_edge(pp, qq)
                        && Self::spec_edge_scanned(pp, y as int + 1, 0)) by {}
            }
            y = y + 1;
        }
        proof {
            assert forall |pp: GridPos, qq: GridPos| #[trigger]
                r@.contains((pp, qq)) <==> self.spec_is_edge(pp, qq) by {}
        }
        r
    }

    /// A witness that a cell belongs to the closure of a boundary column over
    /// the edge list: a nonempty sequence of positions starting at a filled
    /// cell of the seed column, each consecutive pair linked by an edge in
    /// either direction.
    pub open spec fn is_edge_path(self, seed_x: int, p: Seq<GridPos>) -> bool {
        &&& p.len() >= 1
        &&& p[0].x == seed_x
        &&& self.model().in_cell_bounds(p[0].x as int, p[0].y as int)
        &&& self.model().kind_at(p[0].x as int, p[0].y as int) is Some
        &&& forall |i: int|
            1 <= i < p.len() ==> self.spec_is_edge(#[trigger] p[i - 1], p[i]) || self.spec_is_edge(
                p[i],
                p[i - 1],
            )
    }

    /// The cell at `q` is linked to the column `seed_x` through the edge
    /// list.
    pub open spec fn reaches_edge_col(self, seed_x: int, q: GridPos) -> bool {
        exists |p: Seq<GridPos>| #[trigger] self.is_edge_path(seed_x, p) && p.last() == q
    }

    /// Every marked cell really belongs to the closure.
    spec fn edge_marks_sound(self, seed_x: int, marks: Seq<bool>) -> bool {
        forall |q: GridPos|
            self.model().in_cell_bounds(q.x as int, q.y as int) && #[trigger] marks[
            self.model().cell_index(q.x as int, q.y as int)
            ] ==> self.reaches_edge_col(seed_x, q)
    }

    /// Every filled cell of the seed column is marked.
    spec fn edge_marks_seeded(self, seed_x: int, marks: Seq<bool>) -> bool {
        forall |q: GridPos|
            q.x == seed_x && self.model().in_cell_bounds(q.x as int, q.y as int) && (#[trigger]
            self.model().kind_at(q.x as int, q.y as int)) is Some ==> marks[self.model().cell_index(
                q.x as int,
                q.y as int,
            )]
    }

    /// No edge links a marked cell to an unmarked one.
    spec fn edge_marks_closed(self, marks: Seq<bool>) -> bool {
        forall |a: GridPos, b: GridPos|
            #[trigger] self.spec_is_edge(a, b) ==> marks[self.model().cell_index(
                a.x as int,
                a.y as int,
            )] == marks[self.model().cell_index(b.x as int, b.y as int)]
    }

    /// At a closure fixpoint, the endpoint of every edge path is marked.
    proof fn lemma_edge_path_marked(self, seed_x: int, marks: Seq<bool>, p: Seq<GridPos>)
        requires
            self.edge_marks_seeded(seed_x, marks),
            self.edge_marks_closed(marks),
            self.is_edge_path(seed_x, p),
        ensures
            marks[self.model().cell_index(p.last().x as int, p.last().y as int)],
        decreases p.len(),
    {
        assert(p.last() == p[p.len() - 1]);
        if p.len() == 1 {
            assert(self.model().kind_at(p[0].x as int, p[0].y as int) is Some);
        } else {
            let q = p.drop_last();
            assert(q.len() == p.len() - 1);
            assert(q[0] == p[0]);
            assert forall |i: int|
                1 <= i < q.len() implies self.spec_is_edge(#[trigger] q[i - 1], q[i])
                || self.spec_is_edge(q[i], q[i - 1]) by {
                assert(q[i] == p[i] && q[i - 1] == p[i - 1]);
            }
            assert(self.is_edge_path(seed_x, q));
            self.lemma_edge_path_marked(seed_x, marks, q);
            let a = p[p.len() - 2];
            let b = p[p.len() - 1];
            assert(q.last() == a);
            assert(self.spec_is_edge(a, b) || self.spec_is_edge(b, a));
        }
    }

    /// A cell in the closure lies inside the grid and is filled.
    proof fn lemma_edge_reach_filled(self, seed_x: int, q: GridPos)
        requires
            self.reaches_edge_col(seed_x, q),
        ensures
            self.model().in_cell_bounds(q.x as int, q.y as int),
            self.model().kind_at(q.x as int, q.y as int) is Some,
    {
        let p = choose |p: Seq<GridPos>| #[trigger]
            self.is_edge_path(seed_x, p) && p.last() == q;
        assert(p.last() == p[p.len() - 1]);
        if p.len() == 1 {
        } else {
            let i = p.len() - 1;
            assert(self.spec_is_edge(p[i - 1], p[i]) || self.spec_is_edge(p[i], p[i - 1]));
            assert(p[i] == q);
        }
    }

    /// Extending an edge path by one edge (either direction).
    proof fn lemma_edge_reach_step(self, seed_x: int, a: GridPos, b: GridPos)
        requires
            self.reaches_edge_col(seed_x, a),
            self.spec_is_edge(a, b) || self.spec_is_edge(b, a),
        ensures
            self.reaches_edge_col(seed_x, b),
    {
        let p = choose |p: Seq<GridPos>| #[trigger]
            self.is_edge_path(seed_x, p) && p.last() == a;
        let q = p.push(b);
        assert(q[0] == p[0]);
        assert forall |i: int|
            1 <= i < q.len() implies self.spec_is_edge(#[trigger] q[i - 1], q[i])
            || self.spec_is_edge(q[i], q[i - 1]) by {
            if i < p.len() {
                assert(q[i] == p[i] && q[i - 1] == p[i - 1]);
            } else {
                assert(q[i] == b && q[i - 1] == p[p.len() - 1]);
                assert(p[p.len() - 1] == a);
            }
        }
        assert(self.is_edge_path(seed_x, q));
        assert(q.last() == b);
    }

    /// One closure sweep over the edge list: both endpoints of an edge get
    /// marked as soon as either is. Reports whether any mark was added.
    fn edge_reach_pass(
        &self,
        edge_list: &Vec<(GridPos, GridPos)>,
        marks: &mut Vec<bool>,
        seed_right: bool,
    ) -> (changed: bool)
        requires
            self.wf(),
            self.cells@.len() <= isize::MAX as usize,
            forall |p: GridPos, q: GridPos| #[trigger]
                edge_list@.contains((p, q)) <==> self.spec_is_edge(p, q),
            old(marks)@.len() == self.cells@.len(),
            self.edge_marks_sound(
                if seed_right {
                    self.width as int - 1
                } else {
                    0int
                },
                old(marks)@,
            ),
        ensures
            final(marks)@.len() == old(marks)@.len(),
            forall |k: int| 0 <= k < old(marks)@.len() && old(marks)@[k] ==> #[trigger] final(marks)@[k],
            self.edge_marks_sound(
                if seed_right {
                    self.width as int - 1
                } else {
                    0int
                },
                final(marks)@,
            ),
            !changed ==> final(marks)@ == old(marks)@ && self.edge_marks_closed(final(marks)@),
            changed ==> crate::recalc::count_true(final(marks)@) > crate::recalc::count_true(
                old(marks)@,
            ),
    {
        let ghost m = self.model();
        let ghost seed = if seed_right {
            self.width as int - 1
        } else {
            0int
        };
        let ghost marks0 = marks@;
        let w = self.width;
        let h = self.height;
        let mut changed = false;
        let mut k: usize = 0;
        let n = edge_list.len();
        while k < n
            invariant
                self.wf(),
                m == self.model(),
                w == self.width,
                h == self.height,
                self.cells@.len() <= isize::MAX as usize,
                forall |p: GridPos, q: GridPos| #[trigger]
                    edge_list@.contains((p, q)) <==> self.spec_is_edge(p, q),
                n == edge_list@.len(),
                k <= n,
                marks@.len() == self.cells@.len(),
                marks0.len() == marks@.len(),
                forall |j: int| 0 <= j < marks0.len() && marks0[j] ==> #[trigger] marks@[j],
                self.edge_marks_sound(seed, marks@),
                !changed ==> marks@ == marks0 && forall |j: int|
                    0 <= j < k ==> marks0[m.cell_index(
                        (#[trigger] edge_list@[j]).0.x as int,
                        edge_list@[j].0.y as int,
                    )] == marks0[m.cell_index(edge_list@[j].1.x as int, edge_list@[j].1.y as int)],
                changed ==> crate::recalc::count_true(marks@) > crate::recalc::count_true(marks0),
            decreases n - k,
        {
            let (g1, g2) = edge_list[k];
            proof {
                assert(edge_list@[k as int] == (g1, g2));
                assert(edge_list@.contains((g1, g2)));
                assert(self.spec_is_edge(g1, g2));
                crate::recalc::lemma_cell_index_bound(m.width, m.height, g1.x as int, g1.y as int);
                crate::recalc::lemma_cell_index_bound(m.width, m.height, g2.x as int, g2.y as int);
            }
            let i1 = (g1.x as usize) + w * (g1.y as usize);
            let i2 = (g2.x as usize) + w * (g2.y as usize);
            let m1 = marks[i1];
            let m2 = marks[i2];
            if m1 != m2 {
                let (from_pos, to_pos, ti) = if m1 {
                    (g1, g2, i2)
                } else {
                    (g2, g1, i1)
                };
                proof {
                    assert(self.reaches_edge_col(seed, from_pos));
                    self.lemma_edge_reach_step(seed, from_pos, to_pos);
                }
                let ghost before = marks@;
                marks[ti] = true;
                proof {
                    assert(marks@ =~= before.update(ti as int, true));
                    crate::recalc::lemma_count_true_set(before, ti as int);
                    if !changed {
                        assert(crate::recalc::count_true(marks@) == crate::recalc::count_true(
                            marks0,
                        ) + 1);
                    }
                    assert forall |q: GridPos|
                        m.in_cell_bounds(q.x as int, q.y as int) && #[trigger] marks@[m.cell_index(
                            q.x as int,
                            q.y as int,
                        )] implies self.reaches_edge_col(seed, q) by {
                        crate::recalc::lemma_cell_index_bound(
                            m.width,
                            m.height,
                            q.x as int,
                            q.y as int,
                        );
                        if m.cell_index(q.x as int, q.y as int) == ti as int {
                            assert(q.x == to_pos.x && q.y == to_pos.y) by {
                                crate::recalc::lemma_cell_index_bound(
                                    m.width,
                                    m.height,
                                    to_pos.x as int,
                                    to_pos.y as int,
                                );
                                assert((q.x as int) % m.width == (to_pos.x as int) % m.width);
                            }
                        } else {
                            assert(before[m.cell_index(q.x as int, q.y as int)]);
                        }
                    }
                }
                changed = true;
            } else {
                proof {
                    if !changed {
                        assert forall |j: int|
                            0 <= j < k as int + 1 implies marks0[m.cell_index(
                            (#[trigger] edge_list@[j]).0.x as int,
                            edge_list@[j].0.y as int,
                        )] == marks0[m.cell_index(
                            edge_list@[j].1.x as int,
                            edge_list@[j].1.y as int,
                        )] by {}
                    }
                }
            }
            k = k + 1;
        }
        proof {
            if !changed {
                assert forall |a: GridPos, b: GridPos| #[trigger]
                    self.spec_is_edge(a, b) implies marks@[m.cell_index(a.x as int, a.y as int)]
                    == marks@[m.cell_index(b.x as int, b.y as int)] by {
                    assert(edge_list@.contains((a, b)));
                    let j = choose |j: int|
                        0 <= j < edge_list@.len() && edge_list@[j] == (a, b);
                    assert(edge_list@[j].0 == a && edge_list@[j].1 == b);
                }
            }
        }
        changed
    }

    /// Marks exactly the cells in the closure of the chosen boundary column
    /// over the edge list.
    fn edge_reach_marks(&self, edge_list: &Vec<(GridPos, GridPos)>, seed_right: bool) -> (marks:
        Vec<bool>)
        requires
            self.wf(),
            self.cells@.len() <= isize::MAX as usize,
            forall |p: GridPos, q: GridPos| #[trigger]
                edge_list@.contains((p, q)) <==> self.spec_is_edge(p, q),
        ensures
            marks@.len() == self.cells@.len(),
            forall |q: GridPos|
                self.model().in_cell_bounds(q.x as int, q.y as int) ==> #[trigger] marks@[
                self.model().cell_index(q.x as int, q.y as int)
                ] == self.reaches_edge_col(
                    if seed_right {
                        self.width as int - 1
                    } else {
                        0int
                    },
                    q,
                ),
    {
        let ghost m = self.model();
        let ghost seed = if seed_right {
            self.width as int - 1
        } else {
            0int
        };
        let w = self.width;
        let h = self.height;
        proof {
            assert(w <= w * h && h <= w * h) by (nonlinear_arith)
                requires w >= 1, h >= 1;
        }
        let len = self.cells.len();
        let mut marks: Vec<bool> = Vec::new();
        let mut j: usize = 0;
        while j < len
            invariant
                j <= len,
                marks@.len() == j,
                forall |i: int| 0 <= i < j ==> !(#[trigger] marks@[i]),
            decreases len - j,
        {
            marks.push(false);
            j = j + 1;
        }
        let seed_x = if seed_right {
            w - 1
        } else {
            0
        };
        proof {
            assert forall |q: GridPos|
                m.in_cell_bounds(q.x as int, q.y as int) && #[trigger] marks@[m.cell_index(
                    q.x as int,
                    q.y as int,
                )] implies self.reaches_edge_col(seed, q) by {
                crate::recalc::lemma_cell_index_bound(m.width, m.height, q.x as int, q.y as int);
            }
        }
        let mut y: usize = 0;
        while y < h
            invariant
                self.wf(),
                m == self.model(),
                w == self.width,
                h == self.height,
                w <= isize::MAX as usize,
                h <= isize::MAX as usize,
                seed_x == if seed_right {
                    w - 1
                } else {
                    0
                },
                seed == if seed_right {
                    w as int - 1
                } else {
                    0int
                },
                y <= h,
                marks@.len() == self.cells@.len(),
                self.edge_marks_sound(seed, marks@),
                forall |q: GridPos|
                    q.x == seed && m.in_cell_bounds(q.x as int, q.y as int) && q.y < y && (
                    #[trigger] m.kind_at(q.x as int, q.y as int)) is Some ==> marks@[m.cell_index(
                        q.x as int,
                        q.y as int,
                    )],
            decreases h - y,
        {
            proof {
                crate::recalc::lemma_cell_index_bound(m.width, m.height, seed_x as int, y as int);
            }
            let idx = seed_x + w * y;
            let filled = match self.cells[idx] {
                Cell::Empty => false,
                Cell::Filled(_) => true,
            };
            proof {
                assert(m.kinds[idx as int] == spec_cell_kind(self.cells@[idx as int]));
            }
            if filled {
                let ghost before = marks@;
                marks[idx] = true;
                proof {
                    let ghost sp = GridPos { x: seed_x as isize, y: y as isize };
                    assert(m.kind_at(sp.x as int, sp.y as int) is Some);
                    assert(self.is_edge_path(seed, seq![sp]));
                    assert(seq![sp].last() == sp);
                    assert(self.reaches_edge_col(seed, sp));
                    assert forall |q: GridPos|
                        m.in_cell_bounds(q.x as int, q.y as int) && #[trigger] marks@[m.cell_index(
                            q.x as int,
                            q.y as int,
                        )] implies self.reaches_edge_col(seed, q) by {
                        crate::recalc::lemma_cell_index_bound(
                            m.width,
                            m.height,
                            q.x as int,
                            q.y as int,
                        );
                        if m.cell_index(q.x as int, q.y as int) == idx as int {
                            assert((q.x as int) % m.width == (seed_x as int) % m.width);
                            assert(q == sp);
                        } else {
                            assert(before[m.cell_index(q.x as int, q.y as int)]);
                        }
                    }
                }
            }
            proof {
                assert forall |q: GridPos|
                    q.x == seed && m.in_cell_bounds(q.x as int, q.y as int) && q.y < y + 1 && (
                    #[trigger] m.kind_at(q.x as int, q.y as int)) is Some implies marks@[
                m.cell_index(q.x as int, q.y as int)
                ] by {
                    crate::recalc::lemma_cell_index_bound(
                        m.width,
                        m.height,
                        q.x as int,
                        q.y as int,
                    );
                    if q.y == y {
                        assert(m.cell_index(q.x as int, q.y as int) == idx as int);
                    }
                }
            }
            y = y + 1;
        }
        proof {
            crate::recalc::lemma_count_true_le_len(marks@);
            crate::recalc::lemma_count_true_nonneg(marks@);
        }
        let mut changed = true;
        while changed
            invariant
                self.wf(),
                m == self.model(),
                self.cells@.len() <= isize::MAX as usize,
                forall |p: GridPos, q: GridPos| #[trigger]
                    edge_list@.contains((p, q)) <==> self.spec_is_edge(p, q),
                seed == if seed_right {
                    self.width as int - 1
                } else {
                    0int
                },
                marks@.len() == self.cells@.len(),
                self.edge_marks_sound(seed, marks@),
                self.edge_marks_seeded(seed, marks@),
                crate::recalc::count_true(marks@) <= marks@.len(),
                crate::recalc::count_true(marks@) >= 0,
                !changed ==> self.edge_marks_closed(marks@),
            decreases marks@.len() - crate::recalc::count_true(marks@) + if changed {
                1int
            } else {
                0int
            },
        {
            let ghost before_pass = marks@;
            changed = self.edge_reach_pass(edge_list, &mut marks, seed_right);
            proof {
                crate::recalc::lemma_count_true_le_len(marks@);
                crate::recalc::lemma_count_true_nonneg(marks@);
                assert forall |q: GridPos|
                    q.x == seed && m.in_cell_bounds(q.x as int, q.y as int) && (#[trigger]
                    m.kind_at(q.x as int, q.y as int)) is Some implies marks@[m.cell_index(
                        q.x as int,
                        q.y as int,
                    )] by {
                    crate::recalc::lemma_cell_index_bound(
                        m.width,
                        m.height,
                        q.x as int,
                        q.y as int,
                    );
                    assert(before_pass[m.cell_index(q.x as int, q.y as int)]);
                }
            }
        }
        proof {
            assert forall |q: GridPos|
                m.in_cell_bounds(q.x as int, q.y as int) implies #[trigger] marks@[m.cell_index(
                    q.x as int,
                    q.y as int,
                )] == self.reaches_edge_col(seed, q) by {
                crate::recalc::lemma_cell_index_bound(m.width, m.height, q.x as int, q.y as int);
                if self.reaches_edge_col(seed, q) {
                    let p = choose |p: Seq<GridPos>| #[trigger]
                        self.is_edge_path(seed, p) && p.last() == q;
                    self.lemma_edge_path_marked(seed, marks@, p);
                }
            }
        }
        marks
    }

    /// The recalculation of the earlier generation: a cell is active exactly
    /// when it belongs to both boundary columns' closures over the edge list
    /// (no corner-node pruning). Kept alongside `recalculate_active_cells`,
    /// which is the intended behavior.
    pub fn recalculate_active_cells_old(&mut self)
        requires
            old(self).wf(),
            old(self).cells@.len() <= isize::MAX as usize,
        ensures
            final(self).wf(),
            final(self).width == old(self).width,
            final(self).height == old(self).height,
            forall |q: GridPos|
                old(self).model().in_cell_bounds(q.x as int, q.y as int) ==> #[trigger] final(self).cells@[old(self).model().cell_index(q.x as int, q.y as int)]
                    == spec_cell_with_active(
                    old(self).cells@[old(self).model().cell_index(q.x as int, q.y as int)],
                    old(self).reaches_edge_col(0, q) && old(self).reaches_edge_col(
                        old(self).width as int - 1,
                        q,
                    ),
                ),
    {
        let ghost m = self.model();
        let edge_list = self.edges();
        let left = self.edge_reach_marks(&edge_list, false);
        let right = self.edge_reach_marks(&edge_list, true);
        let len = self.cells.len();
        let mut k: usize = 0;
        while k < len
            invariant
                self.width == old(self).width,
                self.height == old(self).height,
                self.cells@.len() == len,
                len == old(self).cells@.len(),
                left@.len() == len,
                right@.len() == len,
                m == old(self).model(),
                forall |q: GridPos|
                    m.in_cell_bounds(q.x as int, q.y as int) ==> #[trigger] left@[m.cell_index(
                        q.x as int,
                        q.y as int,
                    )] == old(self).reaches_edge_col(0, q),
                forall |q: GridPos|
                    m.in_cell_bounds(q.x as int, q.y as int) ==> #[trigger] right@[m.cell_index(
                        q.x as int,
                        q.y as int,
                    )] == old(self).reaches_edge_col(old(self).width as int - 1, q),
                k <= len,
                forall |j: int| k <= j < len ==> #[trigger] self.cells@[j] == old(self).cells@[j],
                forall |j: int| 0 <= j < k ==> #[trigger] self.cells@[j] == spec_cell_with_active(
                    old(self).cells@[j],
                    left@[j] && right@[j],
                ),
            decreases len - k,
        {
            let mut c = self.cells[k];
            if left[k] && right[k] {
                c.activate();
            } else {
                c.deactivate();
            }
            self.cells[k] = c;
            k = k + 1;
        }
        proof {
            assert forall |q: GridPos|
                m.in_cell_bounds(q.x as int, q.y as int) implies #[trigger] self.cells@[
            m.cell_index(q.x as int, q.y as int)
            ] == spec_cell_with_active(
                old(self).cells@[m.cell_index(q.x as int, q.y as int)],
                old(self).reaches_edge_col(0, q) && old(self).reaches_edge_col(
                    old(self).width as int - 1,
                    q,
                ),
            ) by {
                crate::recalc::lemma_cell_index_bound(m.width, m.height, q.x as int, q.y as int);
            }
        }
    }

    fn cells_are_connecting(&self, pair: &(GridPos, GridPos)) -> (r: bool)
        requires
            self.wf(),
        ensures
            r == self.spec_cells_are_connecting(pair.0, pair.1),
    {
        let cell_a_pos = pair.0;
        let cell_b_pos = pair.1;
        let adjacency = cell_a_pos.adjacency(&cell_b_pos);
        match (self.get_index_from_pos(&cell_a_pos), self.get_index_from_pos(&cell_b_pos)) {
            (Some(cell_a_index), Some(cell_b_index)) => {
                let cell_a = self.cells[cell_a_index];
                let cell_b = self.cells[cell_b_index];
                cell_a.is_connected_to(&cell_b, adjacency)
            },
            _ => false,
        }
    }
}

/// Membership in a sequence extended by one element.
pub(crate) proof fn lemma_pair_push_contains(
    s: Seq<(GridPos, GridPos)>,
    e: (GridPos, GridPos),
    x: (GridPos, GridPos),
)
    ensures
        s.push(e).contains(x) <==> (s.contains(x) || x == e),
{
    if s.contains(x) {
        let i = choose |i: int| 0 <= i < s.len() && s[i] == x;
        assert(s.push(e)[i] == x);
    }
    if x == e {
        assert(s.push(e)[s.len() as int] == x);
    }
    if s.push(e).contains(x) {
        let i = choose |i: int| 0 <= i < s.push(e).len() && s.push(e)[i] == x;
        if i < s.len() {
            assert(s[i] == x);
        }
    }
}

/// Law: within the grid, `right` and `left` are inverse — whenever `right(p)`
/// yields a position `q`, `left(q)` yields `p` again.
pub proof fn lemma_left_right_inverse(g: Grid, p: GridPos)
    requires
        g.wf(),
        0 <= p.x < g.width,
    ensures
        g.spec_right(p) matches Some(q) ==> g.spec_left(q) == Some(p),
        g.spec_left(p) matches Some(q) ==> g.spec_right(q) == Some(p),
{
    assert(g.width * 2 <= g.width * g.height) by (nonlinear_arith)
        requires g.height >= 2, g.width >= 0;
}

/// Law: recalculation never marks an empty cell active — whatever grid the
/// recalculated state arose from, the cell where that grid was empty is empty
/// (and so inactive) afterwards.
pub proof fn lemma_no_empty_cell_active(g: Grid, base: Seq<Cell>, w: int, h: int, x: int, y: int)
    requires
        g.is_recalculated_of(base, w, h),
        model_of(base, w, h).in_cell_bounds(x, y),
        base[model_of(base, w, h).cell_index(x, y)] == Cell::Empty,
    ensures
        g.cells@[model_of(base, w, h).cell_index(x, y)] == Cell::Empty,
        !spec_cell_is_active(g.cells@[model_of(base, w, h).cell_index(x, y)]),
{
    let mb = model_of(base, w, h);
    assert(g.cells@[mb.cell_index(x, y)] == spec_cell_with_active(
        base[mb.cell_index(x, y)],
        mb.spec_active(x, y),
    ));
}

/// Law: after recalculation a fragment is active exactly when it is
/// chain-eligible (filled, with both endpoints surviving the pruning) and
/// linked by chain paths to both the left and the right edge.
pub proof fn lemma_active_iff_spanning(g: Grid, base: Seq<Cell>, w: int, h: int, x: int, y: int)
    requires
        g.is_recalculated_of(base, w, h),
        w >= 1,
        h >= 1,
        base.len() == w * h,
        model_of(base, w, h).in_cell_bounds(x, y),
    ensures
        spec_cell_is_active(g.cells@[model_of(base, w, h).cell_index(x, y)]) == {
            let mb = model_of(base, w, h);
            mb.chain_eligible(x, y) && mb.reaches_left(x, y) && mb.reaches_right(x, y)
        },
{
    let mb = model_of(base, w, h);
    assert(g.cells@[mb.cell_index(x, y)] == spec_cell_with_active(
        base[mb.cell_index(x, y)],
        mb.spec_active(x, y),
    ));
    if mb.spec_active(x, y) {
        crate::recalc::lemma_cell_index_bound(w, h, x, y);
        assert(mb.kind_at(x, y) is Some);
        assert(mb.kinds[mb.cell_index(x, y)] == spec_cell_kind(base[mb.cell_index(x, y)]));
    }
}

/// Recalculating over a layout with the same shapes as a grid whose flags are
/// already consistent reproduces that grid exactly.
pub proof fn lemma_recalculated_matches_consistent(g0: Grid, g2: Grid, base: Seq<Cell>)
    requires
        g0.wf(),
        g0.activation_consistent(),
        base.len() == g0.cells@.len(),
        forall |j: int|
            0 <= j < base.len() ==> spec_cell_kind(#[trigger] base[j]) == spec_cell_kind(
                g0.cells@[j],
            ),
        g2.is_recalculated_of(base, g0.width as int, g0.height as int),
    ensures
        g2.cells@ == g0.cells@,
{
    let w = g0.width as int;
    let h = g0.height as int;
    let m0 = model_of(g0.cells@, w, h);
    let mb = model_of(base, w, h);
    assert(mb.kinds =~= m0.kinds);
    assert(mb == m0);
    assert forall |j: int| 0 <= j < g0.cells@.len() implies g2.cells@[j] == g0.cells@[j] by {
        crate::recalc::lemma_index_to_cell(w, h, j);
        let x = j % w;
        let y = j / w;
        assert(mb.cell_index(x, y) == j);
        assert(g2.cells@[mb.cell_index(x, y)] == spec_cell_with_active(
            base[j],
            mb.spec_active(x, y),
        ));
        assert(g0.cells@[m0.cell_index(x, y)] == spec_cell_with_active(
            g0.cells@[j],
            m0.spec_active(x, y),
        ));
    }
    assert(g2.cells@ =~= g0.cells@);
}

/// Law: swapping the same valid pair of positions twice restores the original
/// grid, provided its activation flags were consistent to begin with (as they
/// are after any mutation). `g1` and `g2` are the grids the swap contract
/// describes after the first and the second swap.
pub proof fn lemma_swap_twice_restores(g0: Grid, g1: Grid, g2: Grid, a: GridPos, b: GridPos)
    requires
        g0.wf(),
        g0.activation_consistent(),
        a != b,
        g0.spec_index_of(a) is Some,
        g0.spec_index_of(b) is Some,
        g0.spec_index_of(a) != g0.spec_index_of(b),
        g1.is_recalculated_of(
            g0.spec_swapped_cells(g0.spec_index_of(a)->Some_0, g0.spec_index_of(b)->Some_0),
            g0.width as int,
            g0.height as int,
        ),
        g2.is_recalculated_of(
            g1.spec_swapped_cells(g0.spec_index_of(a)->Some_0, g0.spec_index_of(b)->Some_0),
            g0.width as int,
            g0.height as int,
        ),
    ensures
        g2.cells@ == g0.cells@,
{
    let w = g0.width as int;
    let h = g0.height as int;
    let ia = g0.spec_index_of(a)->Some_0;
    let ib = g0.spec_index_of(b)->Some_0;
    let s0 = g0.cells@;
    let sw1 = g0.spec_swapped_cells(ia, ib);
    let m1 = model_of(sw1, w, h);
    let sw2 = g1.spec_swapped_cells(ia, ib);
    assert forall |j: int| 0 <= j < sw2.len() implies spec_cell_kind(#[trigger] sw2[j])
        == spec_cell_kind(s0[j]) by {
        crate::recalc::lemma_index_to_cell(w, h, j);
        let x = j % w;
        let y = j / w;
        assert(m1.cell_index(x, y) == j);
        if j == ia {
            crate::recalc::lemma_index_to_cell(w, h, ib);
            assert(g1.cells@[m1.cell_index(ib % w, ib / w)] == spec_cell_with_active(
                sw1[ib],
                m1.spec_active(ib % w, ib / w),
            ));
            assert(sw2[ia] == g1.cells@[ib]);
            assert(sw1[ib] == s0[ia]);
        } else if j == ib {
            crate::recalc::lemma_index_to_cell(w, h, ia);
            assert(g1.cells@[m1.cell_index(ia % w, ia / w)] == spec_cell_with_active(
                sw1[ia],
                m1.spec_active(ia % w, ia / w),
            ));
            assert(sw2[ib] == g1.cells@[ia]);
            assert(sw1[ia] == s0[ib]);
        } else {
            assert(g1.cells@[m1.cell_index(x, y)] == spec_cell_with_active(
                sw1[j],
                m1.spec_active(x, y),
            ));
            assert(sw2[j] == g1.cells@[j]);
            assert(sw1[j] == s0[j]);
        }
    }
    lemma_recalculated_matches_consistent(g0, g2, sw2);
}

/// Shape periodicity: when every cell has the same shape as the cell one row
/// above it, shapes repeat across any number of rows.
#[verifier::spinoff_prover]
#[verifier::rlimit(50)]
proof fn lemma_kind_periodic(s: Seq<Cell>, w: int, k: int, t: int)
    requires
        w >= 1,
        t >= 0,
        0 <= k,
        k + w * t < s.len(),
        forall |j: int|
            0 <= j < s.len() - w ==> spec_cell_kind(#[trigger] s[j]) == spec_cell_kind(s[j + w]),
    ensures
        spec_cell_kind(s[k]) == spec_cell_kind(s[k + w * t]),
    decreases t,
{
    if t > 0 {
        assert(w * t == w * (t - 1) + w) by (nonlinear_arith)
            requires t >= 1;
        assert(w * (t - 1) >= 0) by (nonlinear_arith)
            requires w >= 1, t >= 1;
        lemma_kind_periodic(s, w, k, t - 1);
        let j = k + w * (t - 1);
        assert(spec_cell_kind(s[j]) == spec_cell_kind(s[j + w]));
    }
}

/// Law: popping the top row and pushing it back as the new bottom row cycles
/// the rows; it restores the original grid whenever all rows hold the same
/// shapes (the only layouts the cycle leaves in place) and the grid's
/// activation flags were consistent. `g2` is the grid the pop and push
/// contracts describe: recalculated over the popped row followed by the
/// remaining rows.
pub proof fn lemma_pop_push_round_trip(g0: Grid, g2: Grid)
    requires
        g0.wf(),
        g0.activation_consistent(),
        g2.is_recalculated_of(
            g0.cells@.subrange(
                g0.width * (g0.height - 1),
                g0.cells@.len() as int,
            ) + g0.cells@.subrange(0, g0.width * (g0.height - 1)),
            g0.width as int,
            g0.height as int,
        ),
        forall |j: int|
            0 <= j < g0.cells@.len() - g0.width ==> spec_cell_kind(#[trigger] g0.cells@[j])
                == spec_cell_kind(g0.cells@[j + g0.width]),
    ensures
        g2.cells@ == g0.cells@,
{
    let w = g0.width as int;
    let h = g0.height as int;
    let s0 = g0.cells@;
    let cut = w * (h - 1);
    assert(w * (h - 1) + w == w * h && 0 <= w * (h - 1)) by (nonlinear_arith)
        requires w >= 1, h >= 2;
    let rotated = s0.subrange(cut, s0.len() as int) + s0.subrange(0, cut);
    assert forall |j: int| 0 <= j < rotated.len() implies spec_cell_kind(#[trigger] rotated[j])
        == spec_cell_kind(s0[j]) by {
        if j < w {
            assert(rotated[j] == s0[cut + j]);
            lemma_kind_periodic(s0, w, j, h - 1);
        } else {
            assert(rotated[j] == s0[j - w]);
            assert(spec_cell_kind(s0[j - w]) == spec_cell_kind(s0[j]));
        }
    }
    lemma_recalculated_matches_consistent(g0, g2, rotated);
}

} // verus!
