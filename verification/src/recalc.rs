//! Executable activation recalculation, verified against the model in
//! `connectivity`.
//!
//! Phase A prunes dangling corner nodes: starting from the full lattice it
//! repeatedly removes nodes met by fewer than two surrounding cells until no
//! removal remains, which computes exactly the greatest closed node set (the
//! live nodes of the model). Phase B propagates edge reachability over the
//! chain-eligible cells to a fixpoint, which computes exactly the cells with
//! a chain path to each edge.

use vstd::prelude::*;

use crate::cell::{spec_cell_kind, Cell};
use crate::connectivity::{
    lemma_closed_member_live, lemma_eligible_in_bounds, lemma_node_degree_monotone,
    lemma_reaches_eligible, lemma_reaches_seed, lemma_reaches_step, GridModel,
};
use crate::grid::Grid;
use crate::line_fragment::{
    fragment_corner_a, fragment_corner_b, fragment_touches, LineFragmentKind,
};

verus! {

/// The node matrix as a sequence of rows of booleans.
pub open spec fn rows_view(v: Vec<Vec<bool>>) -> Seq<Seq<bool>> {
    v@.map_values(|r: Vec<bool>| r@)
}

/// One boolean per lattice node: row index is the node's `y`, column index
/// its `x`.
pub open spec fn node_matrix_shaped(m: GridModel, rows: Seq<Seq<bool>>) -> bool {
    &&& rows.len() == m.height + 1
    &&& forall |j: int| 0 <= j < rows.len() ==> (#[trigger] rows[j]).len() == m.width + 1
}

/// The set of nodes a boolean matrix marks live.
pub open spec fn live_set_of(rows: Seq<Seq<bool>>) -> Set<(int, int)> {
    Set::new(
        |n: (int, int)|
            0 <= n.1 < rows.len() && 0 <= n.0 < rows[n.1].len() && rows[n.1][n.0],
    )
}

pub open spec fn count_true(s: Seq<bool>) -> int
    decreases s.len(),
{
    if s.len() == 0 {
        0
    } else {
        count_true(s.drop_last()) + if s.last() {
            1int
        } else {
            0int
        }
    }
}

pub open spec fn count_true_2d(ss: Seq<Seq<bool>>) -> int
    decreases ss.len(),
{
    if ss.len() == 0 {
        0
    } else {
        count_true_2d(ss.drop_last()) + count_true(ss.last())
    }
}

pub proof fn lemma_count_true_nonneg(s: Seq<bool>)
    ensures
        count_true(s) >= 0,
    decreases s.len(),
{
    if s.len() > 0 {
        lemma_count_true_nonneg(s.drop_last());
    }
}

pub proof fn lemma_count_true_2d_nonneg(ss: Seq<Seq<bool>>)
    ensures
        count_true_2d(ss) >= 0,
    decreases ss.len(),
{
    if ss.len() > 0 {
        lemma_count_true_2d_nonneg(ss.drop_last());
        lemma_count_true_nonneg(ss.last());
    }
}

/// Clearing a set bit lowers the row count by one.
pub proof fn lemma_count_true_clear(s: Seq<bool>, i: int)
    requires
        0 <= i < s.len(),
        s[i],
    ensures
        count_true(s.update(i, false)) == count_true(s) - 1,
    decreases s.len(),
{
    let t = s.update(i, false);
    if i == s.len() - 1 {
        assert(t.drop_last() =~= s.drop_last());
    } else {
        assert(t.drop_last() =~= s.drop_last().update(i, false));
        lemma_count_true_clear(s.drop_last(), i);
    }
}

/// Replacing one row changes the total count by the rows' difference.
pub proof fn lemma_count_true_2d_update(ss: Seq<Seq<bool>>, j: int, r: Seq<bool>)
    requires
        0 <= j < ss.len(),
    ensures
        count_true_2d(ss.update(j, r)) == count_true_2d(ss) - count_true(ss[j]) + count_true(r),
    decreases ss.len(),
{
    let tt = ss.update(j, r);
    if j == ss.len() - 1 {
        assert(tt.drop_last() =~= ss.drop_last());
    } else {
        assert(tt.drop_last() =~= ss.drop_last().update(j, r));
        lemma_count_true_2d_update(ss.drop_last(), j, r);
    }
}

/// Bounds arithmetic used throughout: a cell's row-major index is inside the
/// cell sequence.
pub proof fn lemma_cell_index_bound(w: int, h: int, x: int, y: int)
    requires
        w >= 1,
        h >= 1,
        0 <= x < w,
        0 <= y < h,
    ensures
        0 <= x + w * y,
        x + w * y < w * h,
        (x + w * y) % w == x,
        (x + w * y) / w == y,
{
    assert(0 <= x + w * y && x + w * y < w * h) by (nonlinear_arith)
        requires w >= 1, h >= 1, 0 <= x < w, 0 <= y < h;
    assert((x + w * y) % w == x && (x + w * y) / w == y) by (nonlinear_arith)
        requires w >= 1, 0 <= x < w, 0 <= y;
}

/// Every index below `w * h` decomposes as column plus `w` times row.
pub proof fn lemma_index_to_cell(w: int, h: int, j: int)
    requires
        w >= 1,
        h >= 1,
        0 <= j < w * h,
    ensures
        0 <= j % w < w,
        0 <= j / w < h,
        j == (j % w) + w * (j / w),
{
    assert(0 <= j % w < w && 0 <= j / w < h && j == (j % w) + w * (j / w)) by (nonlinear_arith)
        requires w >= 1, h >= 1, 0 <= j < w * h;
}

/// Two positions with the same in-bounds row-major index are the same
/// position.
proof fn lemma_cell_index_injective(w: int, h: int, x1: int, y1: int, x2: int, y2: int)
    requires
        w >= 1,
        h >= 1,
        0 <= x1 < w,
        0 <= y1 < h,
        0 <= x2 < w,
        0 <= y2 < h,
        x1 + w * y1 == x2 + w * y2,
    ensures
        x1 == x2 && y1 == y2,
{
    lemma_cell_index_bound(w, h, x1, y1);
    lemma_cell_index_bound(w, h, x2, y2);
}

/// Whether the cell one step left/down of the node (as selected) meets the
/// node `(nx, ny)`, judged against the current node matrix.
fn connects_dir(g: &Grid, rows: &Vec<Vec<bool>>, nx: usize, ny: usize, left: bool, down: bool) -> (r:
    bool)
    requires
        g.wf(),
        node_matrix_shaped(g.model(), rows_view(*rows)),
        nx <= g.width,
        ny <= g.height,
    ensures
        r == g.model().connects_across(
            nx as int - if left {
                1int
            } else {
                0int
            },
            ny as int - if down {
                1int
            } else {
                0int
            },
            nx as int,
            ny as int,
            live_set_of(rows_view(*rows)),
        ),
{
    let ghost m = g.model();
    let ghost live = live_set_of(rows_view(*rows));
    let w = g.width;
    let h = g.height;
    if left && nx == 0 {
        return true;
    }
    if !left && nx == w {
        return true;
    }
    let cx = if left {
        nx - 1
    } else {
        nx
    };
    if down && ny == 0 {
        return false;
    }
    if !down && ny == h {
        return false;
    }
    let cy = if down {
        ny - 1
    } else {
        ny
    };
    proof {
        lemma_cell_index_bound(w as int, h as int, cx as int, cy as int);
    }
    let idx = cx + w * cy;
    match cell_at_index(g, idx) {
        Cell::Empty => {
            proof {
                assert(m.kind_at(cx as int, cy as int) is None);
            }
            false
        },
        Cell::Filled(lf) => {
            let (ax, ay, bx, by) = fragment_corner_coords(lf.kind, cx, cy);
            if nx == ax && ny == ay {
                proof {
                    assert(live.contains((bx as int, by as int)) == rows_view(*rows)[by as int][bx
                        as int]);
                }
                rows[by][bx]
            } else if nx == bx && ny == by {
                proof {
                    assert(live.contains((ax as int, ay as int)) == rows_view(*rows)[ay as int][ax
                        as int]);
                }
                rows[ay][ax]
            } else {
                proof {
                    assert(!fragment_touches(
                        lf.kind,
                        cx as int,
                        cy as int,
                        (nx as int, ny as int),
                    ));
                }
                false
            }
        },
    }
}

/// Reads a cell by linear index.
fn cell_at_index(g: &Grid, idx: usize) -> (c: Cell)
    requires
        idx < g.cells@.len(),
    ensures
        c == g.cells@[idx as int],
        g.model().kinds[idx as int] == spec_cell_kind(c),
{
    g.cells[idx]
}

/// The two corner nodes of a fragment of the given kind in the cell at
/// `(cx, cy)`, as lattice coordinates.
fn fragment_corner_coords(kind: LineFragmentKind, cx: usize, cy: usize) -> (r: (
    usize,
    usize,
    usize,
    usize,
))
    requires
        cx < usize::MAX,
        cy < usize::MAX,
    ensures
        (r.0 as int, r.1 as int) == fragment_corner_a(kind, cx as int, cy as int),
        (r.2 as int, r.3 as int) == fragment_corner_b(kind, cx as int, cy as int),
{
    match kind {
        LineFragmentKind::Caret => (cx, cy, cx + 1, cy),
        LineFragmentKind::InvertedCaret => (cx, cy + 1, cx + 1, cy + 1),
        LineFragmentKind::LeftSlash => (cx, cy + 1, cx + 1, cy),
        LineFragmentKind::RightSlash => (cx, cy, cx + 1, cy + 1),
    }
}

/// Every closed node set is contained in `a`; the pruning loop keeps this
/// true from the full lattice down to its result.
pub open spec fn contains_all_closed(m: GridModel, a: Set<(int, int)>) -> bool {
    forall |s: Set<(int, int)>| #[trigger] m.closed_node_set(s) ==> s.subset_of(a)
}

/// Every node before `(nx, ny)` in row-major lattice order that `rows0` marks
/// live has degree at least two in `rows0`.
pub open spec fn pruned_up_to(m: GridModel, rows0: Seq<Seq<bool>>, ny: int, nx: int) -> bool {
    forall |jx: int, jy: int|
        0 <= jx <= m.width && 0 <= jy <= m.height && (jy < ny || (jy == ny && jx < nx))
            && #[trigger] rows0[jy][jx] ==> m.node_degree(jx, jy, live_set_of(rows0)) >= 2
}

/// Clears one bit of the node matrix.
fn set_node_false(rows: &mut Vec<Vec<bool>>, j: usize, i: usize)
    requires
        j < old(rows)@.len(),
        i < old(rows)@[j as int]@.len(),
    ensures
        final(rows)@.len() == old(rows)@.len(),
        forall |j2: int| 0 <= j2 < old(rows)@.len() && j2 != j ==> final(rows)@[j2] == old(
            rows,
        )@[j2],
        final(rows)@[j as int]@ == old(rows)@[j as int]@.update(i as int, false),
{
    let row: &mut Vec<bool> = &mut rows[j];
    row[i] = false;
}

/// How many of the four surrounding cells meet the node `(nx, ny)`.
fn node_degree_at(g: &Grid, rows: &Vec<Vec<bool>>, nx: usize, ny: usize) -> (d: u8)
    requires
        g.wf(),
        node_matrix_shaped(g.model(), rows_view(*rows)),
        nx <= g.width,
        ny <= g.height,
    ensures
        d as int == g.model().node_degree(nx as int, ny as int, live_set_of(rows_view(*rows))),
{
    let mut d: u8 = 0;
    if connects_dir(g, rows, nx, ny, false, false) {
        d = d + 1;
    }
    if connects_dir(g, rows, nx, ny, false, true) {
        d = d + 1;
    }
    if connects_dir(g, rows, nx, ny, true, true) {
        d = d + 1;
    }
    if connects_dir(g, rows, nx, ny, true, false) {
        d = d + 1;
    }
    d
}

/// One pruning sweep over the lattice: every live node met by fewer than two
/// surrounding cells (judged against the matrix as it stands) is cleared.
/// Reports whether anything was cleared; a sweep that clears nothing leaves a
/// closed node set.
fn prune_pass(g: &Grid, rows: &mut Vec<Vec<bool>>) -> (changed: bool)
    requires
        g.wf(),
        node_matrix_shaped(g.model(), rows_view(*old(rows))),
        contains_all_closed(g.model(), live_set_of(rows_view(*old(rows)))),
    ensures
        node_matrix_shaped(g.model(), rows_view(*final(rows))),
        contains_all_closed(g.model(), live_set_of(rows_view(*final(rows)))),
        !changed ==> rows_view(*final(rows)) == rows_view(*old(rows)),
        !changed ==> g.model().closed_node_set(live_set_of(rows_view(*final(rows)))),
        changed ==> count_true_2d(rows_view(*final(rows))) < count_true_2d(
            rows_view(*old(rows)),
        ),
{
    let ghost m = g.model();
    let ghost rows0 = rows_view(*rows);
    let mut changed = false;
    let w = g.width;
    let h = g.height;
    proof {
        assert(h <= w * h && w <= w * h) by (nonlinear_arith)
            requires w >= 1, h >= 1;
    }
    let mut ny: usize = 0;
    while ny <= h
        invariant
            g.wf(),
            w == g.width,
            h == g.height,
            h < usize::MAX,
            w < usize::MAX,
            m == g.model(),
            ny <= h + 1,
            node_matrix_shaped(m, rows_view(*rows)),
            contains_all_closed(m, live_set_of(rows_view(*rows))),
            !changed ==> rows_view(*rows) == rows0 && pruned_up_to(m, rows0, ny as int, 0),
            changed ==> count_true_2d(rows_view(*rows)) < count_true_2d(rows0),
        decreases h + 1 - ny,
    {
        let mut nx: usize = 0;
        while nx <= w
            invariant
                g.wf(),
                w == g.width,
                h == g.height,
                w < usize::MAX,
                m == g.model(),
                ny <= h,
                nx <= w + 1,
                node_matrix_shaped(m, rows_view(*rows)),
                contains_all_closed(m, live_set_of(rows_view(*rows))),
                !changed ==> rows_view(*rows) == rows0 && pruned_up_to(
                    m,
                    rows0,
                    ny as int,
                    nx as int,
                ),
                changed ==> count_true_2d(rows_view(*rows)) < count_true_2d(rows0),
            decreases w + 1 - nx,
        {
            proof {
                assert(rows@.len() == rows_view(*rows).len());
                assert(rows@[ny as int]@ == rows_view(*rows)[ny as int]);
            }
            let live_here = rows[ny][nx];
            if live_here {
                let d = node_degree_at(g, rows, nx, ny);
                if d < 2 {
                    let ghost prev = rows_view(*rows);
                    let ghost node = (nx as int, ny as int);
                    proof {
                        let cur = live_set_of(prev);
                        assert forall |s: Set<(int, int)>|
                            #[trigger] m.closed_node_set(s) implies s.subset_of(
                            cur.remove(node),
                        ) by {
                            assert(s.subset_of(cur));
                            if s.contains(node) {
                                lemma_node_degree_monotone(m, node.0, node.1, s, cur);
                                assert(false);
                            }
                            assert forall |n: (int, int)| s.contains(n) implies cur.remove(
                                node,
                            ).contains(n) by {
                                assert(cur.contains(n));
                                assert(n != node);
                            }
                        }
                    }
                    set_node_false(rows, ny, nx);
                    proof {
                        let now = rows_view(*rows);
                        assert(now =~= prev.update(ny as int, prev[ny as int].update(nx as int, false)));
                        assert(live_set_of(now) =~= live_set_of(prev).remove(node));
                        lemma_count_true_clear(prev[ny as int], nx as int);
                        lemma_count_true_2d_update(
                            prev,
                            ny as int,
                            prev[ny as int].update(nx as int, false),
                        );
                        if !changed {
                            assert(count_true_2d(now) == count_true_2d(rows0) - 1);
                        }
                    }
                    changed = true;
                } else {
                    proof {
                        if !changed {
                            assert forall |jx: int, jy: int|
                                0 <= jx <= m.width && 0 <= jy <= m.height && (jy < ny as int || (jy
                                    == ny as int && jx < nx as int + 1)) && #[trigger] rows0[jy][jx]
                                implies m.node_degree(jx, jy, live_set_of(rows0)) >= 2 by {
                                if jy == ny as int && jx == nx as int {
                                    assert(d as int == m.node_degree(
                                        nx as int,
                                        ny as int,
                                        live_set_of(rows0),
                                    ));
                                }
                            }
                        }
                    }
                }
            } else {
                proof {
                    if !changed {
                        assert forall |jx: int, jy: int|
                            0 <= jx <= m.width && 0 <= jy <= m.height && (jy < ny as int || (jy
                                == ny as int && jx < nx as int + 1)) && #[trigger] rows0[jy][jx]
                            implies m.node_degree(jx, jy, live_set_of(rows0)) >= 2 by {}
                    }
                }
            }
            nx = nx + 1;
        }
        proof {
            if !changed {
                assert forall |jx: int, jy: int|
                    0 <= jx <= m.width && 0 <= jy <= m.height && (jy < ny as int + 1 || (jy == ny
                        as int + 1 && jx < 0)) && #[trigger] rows0[jy][jx] implies m.node_degree(
                    jx,
                    jy,
                    live_set_of(rows0),
                ) >= 2 by {}
            }
        }
        ny = ny + 1;
    }
    proof {
        if !changed {
            let ls = live_set_of(rows_view(*rows));
            assert forall |n: (int, int)| #[trigger] ls.contains(n) implies m.in_node_bounds(
                n.0,
                n.1,
            ) && m.node_degree(n.0, n.1, ls) >= 2 by {
                assert(rows0[n.1][n.0]);
            }
        }
    }
    changed
}

/// Computes which lattice nodes survive pruning: exactly the live nodes of
/// the model (the greatest closed node set).
fn compute_live_nodes(g: &Grid) -> (rows: Vec<Vec<bool>>)
    requires
        g.wf(),
    ensures
        node_matrix_shaped(g.model(), rows_view(rows)),
        forall |nxi: int, nyi: int|
            g.model().in_node_bounds(nxi, nyi) ==> rows_view(rows)[nyi][nxi] == g.model().node_live(
                nxi,
                nyi,
            ),
{
    let ghost m = g.model();
    let w = g.width;
    let h = g.height;
    proof {
        assert(h <= w * h && w <= w * h) by (nonlinear_arith)
            requires w >= 1, h >= 1;
    }
    let mut rows: Vec<Vec<bool>> = Vec::new();
    let mut ny: usize = 0;
    while ny <= h
        invariant
            h < usize::MAX,
            w < usize::MAX,
            ny <= h + 1,
            rows@.len() == ny,
            forall |j: int| 0 <= j < ny ==> (#[trigger] rows@[j])@.len() == w + 1,
            forall |j: int, i: int| 0 <= j < ny && 0 <= i < w + 1 ==> (#[trigger] rows@[j]@[i])
                == true,
        decreases h + 1 - ny,
    {
        let mut row: Vec<bool> = Vec::new();
        let mut nx: usize = 0;
        while nx <= w
            invariant
                w < usize::MAX,
                nx <= w + 1,
                row@.len() == nx,
                forall |i: int| 0 <= i < nx ==> (#[trigger] row@[i]) == true,
            decreases w + 1 - nx,
        {
            row.push(true);
            nx = nx + 1;
        }
        rows.push(row);
        ny = ny + 1;
    }
    proof {
        assert(node_matrix_shaped(m, rows_view(rows)));
        assert forall |s: Set<(int, int)>| #[trigger] m.closed_node_set(s) implies s.subset_of(
            live_set_of(rows_view(rows)),
        ) by {
            assert forall |n: (int, int)| s.contains(n) implies live_set_of(
                rows_view(rows),
            ).contains(n) by {
                assert(m.in_node_bounds(n.0, n.1));
                assert(rows_view(rows)[n.1][n.0]);
            }
        }
        lemma_count_true_2d_nonneg(rows_view(rows));
    }
    let mut changed = true;
    while changed
        invariant
            g.wf(),
            m == g.model(),
            node_matrix_shaped(m, rows_view(rows)),
            contains_all_closed(m, live_set_of(rows_view(rows))),
            count_true_2d(rows_view(rows)) >= 0,
            !changed ==> m.closed_node_set(live_set_of(rows_view(rows))),
        decreases count_true_2d(rows_view(rows)) + if changed {
            1int
        } else {
            0int
        },
    {
        changed = prune_pass(g, &mut rows);
        proof {
            lemma_count_true_2d_nonneg(rows_view(rows));
        }
    }
    proof {
        let ls = live_set_of(rows_view(rows));
        assert forall |nxi: int, nyi: int| m.in_node_bounds(nxi, nyi) implies rows_view(
            rows,
        )[nyi][nxi] == m.node_live(nxi, nyi) by {
            if rows_view(rows)[nyi][nxi] {
                assert(ls.contains((nxi, nyi)));
                lemma_closed_member_live(m, ls, nxi, nyi);
            }
            if m.node_live(nxi, nyi) {
                let s = choose |s: Set<(int, int)>|
                    m.closed_node_set(s) && s.contains((nxi, nyi));
                assert(s.subset_of(ls));
                assert(ls.contains((nxi, nyi)));
            }
        }
    }
    rows
}

/// `w * (y + 1) == w * y + w`, needed when stepping a row-major index to the
/// next row.
proof fn lemma_mul_succ(w: int, y: int)
    ensures
        w * (y + 1) == w * y + w,
{
    assert(w * (y + 1) == w * y + w) by (nonlinear_arith);
}

/// A cell in an earlier row has a smaller row-major index than any cell of a
/// later row.
proof fn lemma_index_row_lt(w: int, jx: int, jy: int, y: int)
    requires
        w >= 1,
        0 <= jx < w,
        0 <= jy < y,
    ensures
        jx + w * jy < w * y,
{
    assert(jx + w * jy < w * y) by (nonlinear_arith)
        requires w >= 1, 0 <= jx < w, 0 <= jy < y;
}

pub proof fn lemma_count_true_set(s: Seq<bool>, i: int)
    requires
        0 <= i < s.len(),
        !s[i],
    ensures
        count_true(s.update(i, true)) == count_true(s) + 1,
    decreases s.len(),
{
    let t = s.update(i, true);
    if i == s.len() - 1 {
        assert(t.drop_last() =~= s.drop_last());
    } else {
        assert(t.drop_last() =~= s.drop_last().update(i, true));
        lemma_count_true_set(s.drop_last(), i);
    }
}

pub proof fn lemma_count_true_le_len(s: Seq<bool>)
    ensures
        count_true(s) <= s.len(),
    decreases s.len(),
{
    if s.len() > 0 {
        lemma_count_true_le_len(s.drop_last());
    }
}

/// One boolean per cell telling whether the cell is chain-eligible.
pub open spec fn chain_flags_ok(m: GridModel, chain: Seq<bool>) -> bool {
    &&& chain.len() == m.width * m.height
    &&& forall |x: int, y: int|
        m.in_cell_bounds(x, y) ==> #[trigger] chain[m.cell_index(x, y)] == m.chain_eligible(x, y)
}

/// The seed column of a propagation run: the right edge or the left edge.
pub open spec fn seed_col(m: GridModel, seed_right: bool) -> int {
    if seed_right {
        m.width - 1
    } else {
        0
    }
}

/// Every marked cell really reaches the seed column.
pub open spec fn marks_sound(m: GridModel, seed_x: int, marks: Seq<bool>) -> bool {
    forall |x: int, y: int|
        m.in_cell_bounds(x, y) && #[trigger] marks[m.cell_index(x, y)] ==> m.reaches_col(
            seed_x,
            x,
            y,
        )
}

/// Some considered, connected neighbor of `(x, y)` is marked.
pub open spec fn has_marked_neighbor(m: GridModel, marks: Seq<bool>, x: int, y: int) -> bool {
    exists |x2: int, y2: int|
        #[trigger] m.considered_neighbor(x, y, x2, y2) && m.cells_connect(x, y, x2, y2)
            && marks[m.cell_index(x2, y2)]
}

/// The marks are a fixpoint of propagation: every eligible cell that sits in
/// the seed column or sees a marked connected neighbor is itself marked.
pub open spec fn marks_stable(m: GridModel, seed_x: int, marks: Seq<bool>) -> bool {
    forall |x: int, y: int|
        m.in_cell_bounds(x, y) && #[trigger] m.chain_eligible(x, y) && (x == seed_x
            || has_marked_neighbor(m, marks, x, y)) ==> marks[m.cell_index(x, y)]
}

/// At a propagation fixpoint, the endpoint of every chain path is marked —
/// by induction along the path.
pub proof fn lemma_path_marked(m: GridModel, seed_x: int, marks: Seq<bool>, p: Seq<(int, int)>)
    requires
        marks_stable(m, seed_x, marks),
        m.is_chain_path(seed_x, p),
    ensures
        marks[m.cell_index(p.last().0, p.last().1)],
    decreases p.len(),
{
    let x = p.last().0;
    let y = p.last().1;
    assert(p.last() == p[p.len() - 1]);
    assert(m.chain_eligible(x, y));
    lemma_eligible_in_bounds(m, x, y);
    if p.len() == 1 {
        assert(x == seed_x);
    } else {
        let q = p.drop_last();
        assert(q.len() == p.len() - 1);
        assert forall |i: int| 0 <= i < q.len() implies m.chain_eligible(
            #[trigger] q[i].0,
            q[i].1,
        ) by {
            assert(q[i] == p[i]);
        }
        assert forall |i: int|
            1 <= i < q.len() implies m.considered_neighbor(
            #[trigger] q[i].0,
            q[i].1,
            q[i - 1].0,
            q[i - 1].1,
        ) && m.cells_connect(q[i].0, q[i].1, q[i - 1].0, q[i - 1].1) by {
            assert(q[i] == p[i] && q[i - 1] == p[i - 1]);
        }
        assert(m.is_chain_path(seed_x, q));
        lemma_path_marked(m, seed_x, marks, q);
        let x2 = p[p.len() - 2].0;
        let y2 = p[p.len() - 2].1;
        assert(q.last() == p[p.len() - 2]);
        assert(marks[m.cell_index(x2, y2)]);
        assert(m.considered_neighbor(x, y, x2, y2) && m.cells_connect(x, y, x2, y2));
        assert(has_marked_neighbor(m, marks, x, y));
    }
}

/// Whether the fragments at `(x, y)` and `(x2, y2)` connect, by the
/// compatibility table.
fn cells_connect_exec(g: &Grid, x: usize, y: usize, x2: usize, y2: usize) -> (r: bool)
    requires
        g.wf(),
        x < g.width,
        y < g.height,
        x2 < g.width,
        y2 < g.height,
    ensures
        r == g.model().cells_connect(x as int, y as int, x2 as int, y2 as int),
{
    let ghost m = g.model();
    let adj = if x == x2 {
        if y == y2 {
            crate::adjacency::Adjacency::Same
        } else if y2 == y + 1 {
            crate::adjacency::Adjacency::Above
        } else if y == y2 + 1 {
            crate::adjacency::Adjacency::Below
        } else {
            crate::adjacency::Adjacency::NotAdjacent
        }
    } else if x2 == x + 1 {
        if y == y2 {
            crate::adjacency::Adjacency::Right
        } else if y2 == y + 1 {
            crate::adjacency::Adjacency::AboveRight
        } else if y == y2 + 1 {
            crate::adjacency::Adjacency::BelowRight
        } else {
            crate::adjacency::Adjacency::NotAdjacent
        }
    } else if x == x2 + 1 {
        if y == y2 {
            crate::adjacency::Adjacency::Left
        } else if y2 == y + 1 {
            crate::adjacency::Adjacency::AboveLeft
        } else if y == y2 + 1 {
            crate::adjacency::Adjacency::BelowLeft
        } else {
            crate::adjacency::Adjacency::NotAdjacent
        }
    } else {
        crate::adjacency::Adjacency::NotAdjacent
    };
    proof {
        assert(adj == crate::adjacency::spec_adjacency_of(x as int - x2 as int, y as int - y2
            as int));
        lemma_cell_index_bound(g.width as int, g.height as int, x as int, y as int);
        lemma_cell_index_bound(g.width as int, g.height as int, x2 as int, y2 as int);
    }
    let ca = cell_at_index(g, x + g.width * y);
    let cb = cell_at_index(g, x2 + g.width * y2);
    ca.is_connected_to(&cb, adj)
}

/// One boolean per cell: filled and with both fragment endpoints live.
fn compute_chain_flags(g: &Grid, live: &Vec<Vec<bool>>) -> (chain: Vec<bool>)
    requires
        g.wf(),
        node_matrix_shaped(g.model(), rows_view(*live)),
        forall |nxi: int, nyi: int|
            g.model().in_node_bounds(nxi, nyi) ==> rows_view(*live)[nyi][nxi]
                == g.model().node_live(nxi, nyi),
    ensures
        chain_flags_ok(g.model(), chain@),
{
    let ghost m = g.model();
    let w = g.width;
    let h = g.height;
    let mut chain: Vec<bool> = Vec::new();
    let mut y: usize = 0;
    while y < h
        invariant
            g.wf(),
            m == g.model(),
            w == g.width,
            h == g.height,
            node_matrix_shaped(m, rows_view(*live)),
            forall |nxi: int, nyi: int|
                m.in_node_bounds(nxi, nyi) ==> rows_view(*live)[nyi][nxi] == m.node_live(nxi, nyi),
            y <= h,
            chain@.len() == w * y,
            forall |jx: int, jy: int|
                0 <= jx < w && 0 <= jy < y ==> #[trigger] chain@[m.cell_index(jx, jy)]
                    == m.chain_eligible(jx, jy),
        decreases h - y,
    {
        let mut x: usize = 0;
        while x < w
            invariant
                g.wf(),
                m == g.model(),
                w == g.width,
                h == g.height,
                node_matrix_shaped(m, rows_view(*live)),
                forall |nxi: int, nyi: int|
                    m.in_node_bounds(nxi, nyi) ==> rows_view(*live)[nyi][nxi] == m.node_live(
                        nxi,
                        nyi,
                    ),
                y < h,
                x <= w,
                chain@.len() == w * y + x,
                forall |jx: int, jy: int|
                    0 <= jx < w && 0 <= jy < y ==> #[trigger] chain@[m.cell_index(jx, jy)]
                        == m.chain_eligible(jx, jy),
                forall |jx: int| 0 <= jx < x ==> #[trigger] chain@[m.cell_index(jx, y as int)]
                    == m.chain_eligible(jx, y as int),
            decreases w - x,
        {
            proof {
                lemma_cell_index_bound(w as int, h as int, x as int, y as int);
            }
            let flag = match cell_at_index(g, x + w * y) {
                Cell::Empty => false,
                Cell::Filled(lf) => {
                    let (ax, ay, bx, by) = fragment_corner_coords(lf.kind, x, y);
                    proof {
                        assert(m.in_node_bounds(ax as int, ay as int));
                        assert(m.in_node_bounds(bx as int, by as int));
                    }
                    live[ay][ax] && live[by][bx]
                },
            };
            proof {
                assert(flag == m.chain_eligible(x as int, y as int));
            }
            chain.push(flag);
            proof {
                assert forall |jx: int, jy: int|
                    0 <= jx < w && 0 <= jy < y implies #[trigger] chain@[m.cell_index(jx, jy)]
                    == m.chain_eligible(jx, jy) by {
                    lemma_index_row_lt(w as int, jx, jy, y as int);
                    assert(m.cell_index(jx, jy) < chain@.len() - 1);
                }
                assert forall |jx: int|
                    0 <= jx < x + 1 implies #[trigger] chain@[m.cell_index(jx, y as int)]
                    == m.chain_eligible(jx, y as int) by {
                    lemma_cell_index_bound(w as int, h as int, jx, y as int);
                }
            }
            x = x + 1;
        }
        proof {
            lemma_mul_succ(w as int, y as int);
        }
        y = y + 1;
    }
    proof {
        assert forall |x: int, y2: int| m.in_cell_bounds(x, y2) implies #[trigger] chain@[
            m.cell_index(x, y2)
        ] == m.chain_eligible(x, y2) by {}
    }
    chain
}

/// Whether `(x2, y2)` is an in-bounds candidate with a connecting fragment
/// and a set mark.
fn neighbor_hit(g: &Grid, marks: &Vec<bool>, x: usize, y: usize, x2: usize, y2: usize) -> (r: bool)
    requires
        g.wf(),
        x < g.width,
        y < g.height,
        x2 < g.width,
        y2 < g.height,
        marks@.len() == g.cells@.len(),
    ensures
        r == (g.model().cells_connect(x as int, y as int, x2 as int, y2 as int) && marks@[
            g.model().cell_index(x2 as int, y2 as int)
        ]),
{
    proof {
        lemma_cell_index_bound(g.width as int, g.height as int, x2 as int, y2 as int);
    }
    let j = x2 + g.width * y2;
    marks[j] && cells_connect_exec(g, x, y, x2, y2)
}

/// Whether any considered neighbor of `(x, y)` both connects to it and is
/// marked.
fn has_marked_connected_neighbor(g: &Grid, marks: &Vec<bool>, x: usize, y: usize) -> (r: bool)
    requires
        g.wf(),
        x < g.width,
        y < g.height,
        marks@.len() == g.cells@.len(),
    ensures
        r == has_marked_neighbor(g.model(), marks@, x as int, y as int),
{
    let ghost m = g.model();
    let w = g.width;
    let h = g.height;
    if x == 0 {
        if x + 1 < w {
            if y + 1 < h && neighbor_hit(g, marks, x, y, x + 1, y + 1) {
                proof {
                    assert(m.considered_neighbor(x as int, y as int, x as int + 1, y as int + 1));
                }
                return true;
            }
            if neighbor_hit(g, marks, x, y, x + 1, y) {
                proof {
                    assert(m.considered_neighbor(x as int, y as int, x as int + 1, y as int));
                }
                return true;
            }
            if y > 0 && neighbor_hit(g, marks, x, y, x + 1, y - 1) {
                proof {
                    assert(m.considered_neighbor(x as int, y as int, x as int + 1, y as int - 1));
                }
                return true;
            }
        }
    } else if x == w - 1 {
        if y + 1 < h && neighbor_hit(g, marks, x, y, x - 1, y + 1) {
            proof {
                assert(m.considered_neighbor(x as int, y as int, x as int - 1, y as int + 1));
            }
            return true;
        }
        if neighbor_hit(g, marks, x, y, x - 1, y) {
            proof {
                assert(m.considered_neighbor(x as int, y as int, x as int - 1, y as int));
            }
            return true;
        }
        if y > 0 && neighbor_hit(g, marks, x, y, x - 1, y - 1) {
            proof {
                assert(m.considered_neighbor(x as int, y as int, x as int - 1, y as int - 1));
            }
            return true;
        }
    } else {
        if y + 1 < h {
            if neighbor_hit(g, marks, x, y, x - 1, y + 1) {
                proof {
                    assert(m.considered_neighbor(x as int, y as int, x as int - 1, y as int + 1));
                }
                return true;
            }
            if neighbor_hit(g, marks, x, y, x, y + 1) {
                proof {
                    assert(m.considered_neighbor(x as int, y as int, x as int, y as int + 1));
                }
                return true;
            }
            if neighbor_hit(g, marks, x, y, x + 1, y + 1) {
                proof {
                    assert(m.considered_neighbor(x as int, y as int, x as int + 1, y as int + 1));
                }
                return true;
            }
        }
        if neighbor_hit(g, marks, x, y, x - 1, y) {
            proof {
                assert(m.considered_neighbor(x as int, y as int, x as int - 1, y as int));
            }
            return true;
        }
        if neighbor_hit(g, marks, x, y, x + 1, y) {
            proof {
                assert(m.considered_neighbor(x as int, y as int, x as int + 1, y as int));
            }
            return true;
        }
        if y > 0 {
            if neighbor_hit(g, marks, x, y, x - 1, y - 1) {
                proof {
                    assert(m.considered_neighbor(x as int, y as int, x as int - 1, y as int - 1));
                }
                return true;
            }
            if neighbor_hit(g, marks, x, y, x, y - 1) {
                proof {
                    assert(m.considered_neighbor(x as int, y as int, x as int, y as int - 1));
                }
                return true;
            }
            if neighbor_hit(g, marks, x, y, x + 1, y - 1) {
                proof {
                    assert(m.considered_neighbor(x as int, y as int, x as int + 1, y as int - 1));
                }
                return true;
            }
        }
    }
    proof {
        assert forall |x2: int, y2: int|
            m.considered_neighbor(x as int, y as int, x2, y2) && m.cells_connect(
            x as int,
            y as int,
            x2,
            y2,
        ) implies !marks@[m.cell_index(x2, y2)] by {
            lemma_cell_index_bound(w as int, h as int, x2, y2);
        }
    }
    false
}

/// Every cell before `(y, x)` in row-major scan order satisfies the
/// propagation fixpoint property with respect to `marks`.
pub open spec fn stable_up_to(m: GridModel, seed_x: int, marks: Seq<bool>, y: int, x: int) -> bool {
    forall |jx: int, jy: int|
        0 <= jx < m.width && 0 <= jy < m.height && (jy < y || (jy == y && jx < x))
            && #[trigger] m.chain_eligible(jx, jy) && (jx == seed_x || has_marked_neighbor(
            m,
            marks,
            jx,
            jy,
        )) ==> marks[m.cell_index(jx, jy)]
}

/// One propagation sweep: every unmarked eligible cell that sits in the seed
/// column or sees a marked connected neighbor gets marked. Reports whether
/// any mark was added; a sweep that adds none leaves a fixpoint.
fn propagate_pass(g: &Grid, chain: &Vec<bool>, marks: &mut Vec<bool>, seed_right: bool) -> (changed:
    bool)
    requires
        g.wf(),
        chain_flags_ok(g.model(), chain@),
        old(marks)@.len() == g.cells@.len(),
        marks_sound(g.model(), seed_col(g.model(), seed_right), old(marks)@),
    ensures
        final(marks)@.len() == old(marks)@.len(),
        forall |k: int| 0 <= k < old(marks)@.len() && old(marks)@[k] ==> final(marks)@[k],
        marks_sound(g.model(), seed_col(g.model(), seed_right), final(marks)@),
        !changed ==> final(marks)@ == old(marks)@ && marks_stable(
            g.model(),
            seed_col(g.model(), seed_right),
            final(marks)@,
        ),
        changed ==> count_true(final(marks)@) > count_true(old(marks)@),
{
    let ghost m = g.model();
    let ghost seed = seed_col(m, seed_right);
    let ghost marks0 = marks@;
    let mut changed = false;
    let w = g.width;
    let h = g.height;
    let mut y: usize = 0;
    let mut i: usize = 0;
    while y < h
        invariant
            g.wf(),
            m == g.model(),
            seed == seed_col(m, seed_right),
            w == g.width,
            h == g.height,
            chain_flags_ok(m, chain@),
            marks@.len() == g.cells@.len(),
            y <= h,
            i == w * y,
            forall |k: int| 0 <= k < marks0.len() && marks0[k] ==> #[trigger] marks@[k],
            marks0.len() == marks@.len(),
            marks_sound(m, seed, marks@),
            !changed ==> marks@ == marks0 && stable_up_to(m, seed, marks0, y as int, 0),
            changed ==> count_true(marks@) > count_true(marks0),
        decreases h - y,
    {
        let mut x: usize = 0;
        while x < w
            invariant
                g.wf(),
                m == g.model(),
                seed == seed_col(m, seed_right),
                w == g.width,
                h == g.height,
                chain_flags_ok(m, chain@),
                marks@.len() == g.cells@.len(),
                y < h,
                x <= w,
                i == x + w * y,
                forall |k: int| 0 <= k < marks0.len() && marks0[k] ==> #[trigger] marks@[k],
                marks0.len() == marks@.len(),
                marks_sound(m, seed, marks@),
                !changed ==> marks@ == marks0 && stable_up_to(m, seed, marks0, y as int, x as int),
                changed ==> count_true(marks@) > count_true(marks0),
            decreases w - x,
        {
            proof {
                lemma_cell_index_bound(w as int, h as int, x as int, y as int);
            }
            let eligible_here = chain[i];
            let marked_here = marks[i];
            if eligible_here && !marked_here {
                let at_seed = if seed_right {
                    x == w - 1
                } else {
                    x == 0
                };
                let found = at_seed || has_marked_connected_neighbor(g, marks, x, y);
                if found {
                    proof {
                        assert(chain@[m.cell_index(x as int, y as int)] == m.chain_eligible(
                            x as int,
                            y as int,
                        ));
                        if at_seed {
                            lemma_reaches_seed(m, seed, x as int, y as int);
                        } else {
                            let (x2, y2) = choose |x2: int, y2: int|
                                #[trigger] m.considered_neighbor(x as int, y as int, x2, y2)
                                    && m.cells_connect(x as int, y as int, x2, y2) && marks@[
                                m.cell_index(x2, y2)
                                ];
                            assert(m.reaches_col(seed, x2, y2));
                            lemma_reaches_step(m, seed, x2, y2, x as int, y as int);
                        }
                        assert(m.reaches_col(seed, x as int, y as int));
                    }
                    let ghost before = marks@;
                    marks[i] = true;
                    proof {
                        assert(marks@ =~= before.update(i as int, true));
                        lemma_count_true_set(before, i as int);
                        if !changed {
                            assert(count_true(marks@) == count_true(marks0) + 1);
                        }
                        assert forall |jx: int, jy: int|
                            m.in_cell_bounds(jx, jy) && #[trigger] marks@[m.cell_index(
                                jx,
                                jy,
                            )] implies m.reaches_col(seed, jx, jy) by {
                            lemma_cell_index_bound(w as int, h as int, jx, jy);
                            if m.cell_index(jx, jy) == i as int {
                                lemma_cell_index_injective(
                                    w as int,
                                    h as int,
                                    jx,
                                    jy,
                                    x as int,
                                    y as int,
                                );
                            } else {
                                assert(before[m.cell_index(jx, jy)]);
                            }
                        }
                    }
                    changed = true;
                } else {
                    proof {
                        if !changed {
                            assert forall |jx: int, jy: int|
                                0 <= jx < m.width && 0 <= jy < m.height && (jy < y as int || (jy
                                    == y as int && jx < x as int + 1)) && #[trigger]
                                m.chain_eligible(jx, jy) && (jx == seed || has_marked_neighbor(
                                    m,
                                    marks0,
                                    jx,
                                    jy,
                                )) implies marks0[m.cell_index(jx, jy)] by {
                                if jx == x as int && jy == y as int {
                                    assert(chain@[m.cell_index(x as int, y as int)]
                                        == m.chain_eligible(x as int, y as int));
                                    assert(false);
                                }
                            }
                        }
                    }
                }
            } else {
                proof {
                    if !changed {
                        assert forall |jx: int, jy: int|
                            0 <= jx < m.width && 0 <= jy < m.height && (jy < y as int || (jy == y
                                as int && jx < x as int + 1)) && #[trigger] m.chain_eligible(
                                jx,
                                jy,
                            ) && (jx == seed || has_marked_neighbor(m, marks0, jx, jy)) implies
                            marks0[m.cell_index(jx, jy)] by {
                            if jx == x as int && jy == y as int {
                                assert(chain@[m.cell_index(x as int, y as int)]
                                    == m.chain_eligible(x as int, y as int));
                                assert(marks0[m.cell_index(x as int, y as int)] == marked_here);
                            }
                        }
                    }
                }
            }
            x = x + 1;
            i = i + 1;
        }
        proof {
            lemma_mul_succ(w as int, y as int);
            if !changed {
                assert forall |jx: int, jy: int|
                    0 <= jx < m.width && 0 <= jy < m.height && (jy < y as int + 1 || (jy == y
                        as int + 1 && jx < 0)) && #[trigger] m.chain_eligible(jx, jy) && (jx
                        == seed || has_marked_neighbor(m, marks0, jx, jy)) implies marks0[
                    m.cell_index(jx, jy)
                    ] by {}
            }
        }
        y = y + 1;
    }
    changed
}

/// Marks exactly the cells that reach the chosen seed column, by iterating
/// propagation sweeps to a fixpoint.
fn compute_marks(g: &Grid, chain: &Vec<bool>, seed_right: bool) -> (marks: Vec<bool>)
    requires
        g.wf(),
        chain_flags_ok(g.model(), chain@),
    ensures
        marks@.len() == g.cells@.len(),
        forall |x: int, y: int|
            g.model().in_cell_bounds(x, y) ==> #[trigger] marks@[g.model().cell_index(x, y)]
                == g.model().reaches_col(seed_col(g.model(), seed_right), x, y),
{
    let ghost m = g.model();
    let ghost seed = seed_col(m, seed_right);
    let len = g.cells.len();
    let mut marks: Vec<bool> = Vec::new();
    let mut k: usize = 0;
    while k < len
        invariant
            k <= len,
            marks@.len() == k,
            forall |j: int| 0 <= j < k ==> !(#[trigger] marks@[j]),
        decreases len - k,
    {
        marks.push(false);
        k = k + 1;
    }
    proof {
        assert forall |x: int, y: int|
            m.in_cell_bounds(x, y) && #[trigger] marks@[m.cell_index(x, y)] implies m.reaches_col(
            seed,
            x,
            y,
        ) by {
            lemma_cell_index_bound(m.width, m.height, x, y);
        }
        lemma_count_true_le_len(marks@);
        lemma_count_true_nonneg(marks@);
    }
    let mut changed = true;
    while changed
        invariant
            g.wf(),
            m == g.model(),
            seed == seed_col(m, seed_right),
            chain_flags_ok(m, chain@),
            marks@.len() == g.cells@.len(),
            marks_sound(m, seed, marks@),
            count_true(marks@) <= marks@.len(),
            count_true(marks@) >= 0,
            !changed ==> marks_stable(m, seed, marks@),
        decreases marks@.len() - count_true(marks@) + if changed {
            1int
        } else {
            0int
        },
    {
        changed = propagate_pass(g, chain, &mut marks, seed_right);
        proof {
            lemma_count_true_le_len(marks@);
            lemma_count_true_nonneg(marks@);
        }
    }
    proof {
        assert forall |x: int, y: int| m.in_cell_bounds(x, y) implies #[trigger] marks@[
        m.cell_index(x, y)
        ] == m.reaches_col(seed, x, y) by {
            lemma_cell_index_bound(m.width, m.height, x, y);
            if marks@[m.cell_index(x, y)] {
                assert(m.reaches_col(seed, x, y));
            }
            if m.reaches_col(seed, x, y) {
                let p = choose |p: Seq<(int, int)>| #[trigger]
                    m.is_chain_path(seed, p) && p.last() == (x, y);
                lemma_path_marked(m, seed, marks@, p);
            }
        }
    }
    marks
}

/// The activation flags recalculation computes: one boolean per cell, true
/// exactly for the cells the model declares active.
pub fn compute_active_flags(g: &Grid) -> (flags: Vec<bool>)
    requires
        g.wf(),
    ensures
        flags@.len() == g.cells@.len(),
        forall |x: int, y: int|
            g.model().in_cell_bounds(x, y) ==> #[trigger] flags@[g.model().cell_index(x, y)]
                == g.model().spec_active(x, y),
{
    let ghost m = g.model();
    let live = compute_live_nodes(g);
    let chain = compute_chain_flags(g, &live);
    let left = compute_marks(g, &chain, false);
    let right = compute_marks(g, &chain, true);
    let mut flags: Vec<bool> = Vec::new();
    let mut k: usize = 0;
    let len = g.cells.len();
    while k < len
        invariant
            left@.len() == len,
            right@.len() == len,
            k <= len,
            flags@.len() == k,
            forall |j: int| 0 <= j < k ==> #[trigger] flags@[j] == (left@[j] && right@[j]),
        decreases len - k,
    {
        let f = left[k] && right[k];
        flags.push(f);
        k = k + 1;
    }
    proof {
        assert forall |x: int, y: int| m.in_cell_bounds(x, y) implies #[trigger] flags@[
        m.cell_index(x, y)
        ] == m.spec_active(x, y) by {
            lemma_cell_index_bound(m.width, m.height, x, y);
            assert(left@[m.cell_index(x, y)] == m.reaches_col(0, x, y));
            assert(right@[m.cell_index(x, y)] == m.reaches_col(m.width - 1, x, y));
            if m.reaches_col(0, x, y) {
                lemma_reaches_eligible(m, 0, x, y);
            }
        }
    }
    flags
}

} // verus!
