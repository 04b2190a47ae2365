//! Traversal orders over a `width * height` grid: every coordinate pair (or
//! linear index) exactly once, with each axis walked in either direction.

use vstd::prelude::*;

verus! {

#[derive(Debug, Clone, Copy, PartialEq, Eq, Structural, PartialOrd)]
pub enum GridIterDirectionX {
    LeftToRight,
    RightToLeft,
}

#[derive(Debug, Clone, Copy, PartialEq, Eq, Structural, PartialOrd)]
pub enum GridIterDirectionY {
    BottomToTop,
    TopToBottom,
}

/// The column visited at step `k % width` of a row, for the chosen direction.
pub open spec fn spec_iter_x(width: int, direction_x: GridIterDirectionX, k: int) -> int {
    match direction_x {
        GridIterDirectionX::LeftToRight => k % width,
        GridIterDirectionX::RightToLeft => width - 1 - k % width,
    }
}

/// The row visited during the `k / width`-th row sweep, for the chosen
/// direction.
pub open spec fn spec_iter_y(width: int, height: int, direction_y: GridIterDirectionY, k: int) -> int {
    match direction_y {
        GridIterDirectionY::BottomToTop => k / width,
        GridIterDirectionY::TopToBottom => height - 1 - k / width,
    }
}

/// All `width * height` coordinate pairs, rows in the `direction_y` order and
/// each row's columns in the `direction_x` order.
pub fn new_xy_iter(
    width: usize,
    height: usize,
    direction_x: GridIterDirectionX,
    direction_y: GridIterDirectionY,
) -> (r: Vec<(usize, usize)>)
    requires
        width >= 1,
        height >= 1,
        width * height < usize::MAX,
    ensures
        r@.len() == width * height,
        forall |k: int|
            0 <= k < r@.len() ==> (#[trigger] r@[k]).0 as int == spec_iter_x(
                width as int,
                direction_x,
                k,
            ) && r@[k].1 as int == spec_iter_y(width as int, height as int, direction_y, k),
{
    let mut r: Vec<(usize, usize)> = Vec::new();
    let mut row: usize = 0;
    while row < height
        invariant
            width >= 1,
            height >= 1,
            width * height < usize::MAX,
            row <= height,
            r@.len() == width * row,
            forall |k: int|
                0 <= k < r@.len() ==> (#[trigger] r@[k]).0 as int == spec_iter_x(
                    width as int,
                    direction_x,
                    k,
                ) && r@[k].1 as int == spec_iter_y(width as int, height as int, direction_y, k),
        decreases height - row,
    {
        let y = match direction_y {
            GridIterDirectionY::BottomToTop => row,
            GridIterDirectionY::TopToBottom => height - 1 - row,
        };
        let mut col: usize = 0;
        proof {
            assert(width * row + width <= width * height && width * (row + 1) == width * row
                + width) by (nonlinear_arith)
                requires width >= 1, 0 <= row < height;
        }
        while col < width
            invariant
                width >= 1,
                height >= 1,
                width * height < usize::MAX,
                row < height,
                col <= width,
                width * row + width <= width * height,
                y == match direction_y {
                    GridIterDirectionY::BottomToTop => row as int,
                    GridIterDirectionY::TopToBottom => height - 1 - row,
                },
                r@.len() == width * row + col,
                forall |k: int|
                    0 <= k < r@.len() ==> (#[trigger] r@[k]).0 as int == spec_iter_x(
                        width as int,
                        direction_x,
                        k,
                    ) && r@[k].1 as int == spec_iter_y(width as int, height as int, direction_y, k),
            decreases width - col,
        {
            let x = match direction_x {
                GridIterDirectionX::LeftToRight => col,
                GridIterDirectionX::RightToLeft => width - 1 - col,
            };
            r.push((x, y));
            proof {
                let k = r@.len() - 1;
                assert(k % width as int == col as int && k / width as int == row as int)
                    by (nonlinear_arith)
                    requires
                        width >= 1,
                        0 <= col < width,
                        row >= 0,
                        k == width * row + col;
            }
            col = col + 1;
        }
        row = row + 1;
    }
    r
}

/// All `width * height` linear indexes, in the order `new_xy_iter` visits the
/// corresponding coordinate pairs.
pub fn new_index_iter(
    width: usize,
    height: usize,
    direction_x: GridIterDirectionX,
    direction_y: GridIterDirectionY,
) -> (r: Vec<usize>)
    requires
        width >= 1,
        height >= 1,
        width * height < usize::MAX,
    ensures
        r@.len() == width * height,
        forall |k: int|
            0 <= k < r@.len() ==> #[trigger] r@[k] as int == spec_iter_x(
                width as int,
                direction_x,
                k,
            ) + width * spec_iter_y(width as int, height as int, direction_y, k),
{
    let xys = new_xy_iter(width, height, direction_x, direction_y);
    let mut r: Vec<usize> = Vec::new();
    let mut k: usize = 0;
    let len = xys.len();
    while k < len
        invariant
            width >= 1,
            height >= 1,
            width * height < usize::MAX,
            xys@.len() == width * height,
            len == xys@.len(),
            forall |j: int|
                0 <= j < xys@.len() ==> (#[trigger] xys@[j]).0 as int == spec_iter_x(
                    width as int,
                    direction_x,
                    j,
                ) && xys@[j].1 as int == spec_iter_y(width as int, height as int, direction_y, j),
            k <= len,
            r@.len() == k,
            forall |j: int|
                0 <= j < k ==> #[trigger] r@[j] as int == spec_iter_x(width as int, direction_x, j)
                    + width * spec_iter_y(width as int, height as int, direction_y, j),
        decreases len - k,
    {
        let (x, y) = xys[k];
        proof {
            let w = width as int;
            let h = height as int;
            let ki = k as int;
            assert(0 <= ki % w < w && 0 <= ki / w < h) by (nonlinear_arith)
                requires w >= 1, h >= 1, 0 <= ki < w * h;
            assert(x < width && y < height);
            crate::recalc::lemma_cell_index_bound(w, h, x as int, y as int);
        }
        r.push(x + width * y);
        k = k + 1;
    }
    r
}

} // verus!
