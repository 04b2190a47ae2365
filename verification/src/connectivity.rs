//! Mathematical model of the activation recalculation.
//!
//! The grid's shapes induce a graph on the corner-node lattice (one node at
//! every cell corner, so one more node than cell in each dimension): every
//! filled cell is an edge between the two corner nodes its fragment spans.
//!
//! A corner node is *live* when it belongs to some set of nodes in which every
//! node is met by at least two of its four surrounding cells — where a cell
//! beyond the left or right edge of the grid counts as meeting the node
//! unconditionally, and a cell beyond the top or bottom does not. The live
//! nodes are exactly the greatest such set; every smaller "closed" set is
//! contained in it. A fragment both of whose endpoints are live is
//! *chain-eligible*; fragments with a pruned endpoint are dangling stubs.
//!
//! A chain-eligible cell is *active* exactly when some path of pairwise
//! connected chain-eligible cells links it to the left edge (column 0) and
//! some such path links it to the right edge (column `width - 1`).

use vstd::prelude::*;

use crate::adjacency::{kinds_connect, spec_adjacency_of};
use crate::cell::{spec_cell_kind, Cell};
use crate::line_fragment::{
    fragment_corner_a, fragment_corner_b, fragment_other_corner, fragment_touches,
    LineFragmentKind,
};

verus! {

/// The shape layout of a grid: cell kinds in row-major order (row 0 at the
/// bottom), with the dimensions. Activation flags are deliberately absent —
/// connectivity depends on the shapes alone.
pub ghost struct GridModel {
    pub kinds: Seq<Option<LineFragmentKind>>,
    pub width: int,
    pub height: int,
}

impl GridModel {
    pub open spec fn wf(self) -> bool {
        &&& self.width >= 1
        &&& self.height >= 2
        &&& self.kinds.len() == self.width * self.height
    }

    pub open spec fn in_cell_bounds(self, x: int, y: int) -> bool {
        0 <= x < self.width && 0 <= y < self.height
    }

    pub open spec fn in_node_bounds(self, nx: int, ny: int) -> bool {
        0 <= nx <= self.width && 0 <= ny <= self.height
    }

    pub open spec fn cell_index(self, x: int, y: int) -> int {
        x + self.width * y
    }

    /// The shape in the cell at `(x, y)`, `None` outside the grid or for an
    /// empty cell.
    pub open spec fn kind_at(self, x: int, y: int) -> Option<LineFragmentKind> {
        if self.in_cell_bounds(x, y) {
            self.kinds[self.cell_index(x, y)]
        } else {
            None
        }
    }

    /// Whether the cell at `(cx, cy)` meets the node `(nx, ny)`, judged
    /// against a candidate set `live` of nodes: the cell must hold a fragment
    /// with `(nx, ny)` as one endpoint and its other endpoint in `live`.
    /// Cells beyond the left or right edge meet every node (chains may leave
    /// the grid sideways); cells beyond the top or bottom meet none.
    pub open spec fn connects_across(
        self,
        cx: int,
        cy: int,
        nx: int,
        ny: int,
        live: Set<(int, int)>,
    ) -> bool {
        if !(0 <= cx < self.width) {
            true
        } else if !(0 <= cy < self.height) {
            false
        } else {
            match self.kind_at(cx, cy) {
                None => false,
                Some(k) => fragment_touches(k, cx, cy, (nx, ny)) && live.contains(
                    fragment_other_corner(k, cx, cy, (nx, ny)),
                ),
            }
        }
    }

    /// How many of the four cells sharing the corner node `(nx, ny)` meet it,
    /// judged against `live`.
    pub open spec fn node_degree(self, nx: int, ny: int, live: Set<(int, int)>) -> int {
        (if self.connects_across(nx, ny, nx, ny, live) {
            1int
        } else {
            0int
        }) + (if self.connects_across(nx, ny - 1, nx, ny, live) {
            1int
        } else {
            0int
        }) + (if self.connects_across(nx - 1, ny - 1, nx, ny, live) {
            1int
        } else {
            0int
        }) + (if self.connects_across(nx - 1, ny, nx, ny, live) {
            1int
        } else {
            0int
        })
    }

    /// A set of lattice nodes every member of which is met by at least two of
    /// its surrounding cells, judged against the set itself.
    pub open spec fn closed_node_set(self, s: Set<(int, int)>) -> bool {
        forall |n: (int, int)| #[trigger]
            s.contains(n) ==> self.in_node_bounds(n.0, n.1) && self.node_degree(n.0, n.1, s) >= 2
    }

    /// A node survives pruning exactly when some closed set contains it; the
    /// live nodes form the greatest closed set.
    pub open spec fn node_live(self, nx: int, ny: int) -> bool {
        exists |s: Set<(int, int)>| #[trigger]
            self.closed_node_set(s) && s.contains((nx, ny))
    }

    /// A filled cell both of whose fragment endpoints survived pruning.
    pub open spec fn chain_eligible(self, x: int, y: int) -> bool {
        match self.kind_at(x, y) {
            None => false,
            Some(k) => {
                let a = fragment_corner_a(k, x, y);
                let b = fragment_corner_b(k, x, y);
                self.node_live(a.0, a.1) && self.node_live(b.0, b.1)
            },
        }
    }

    /// Whether the fragments at two positions connect geometrically (both
    /// filled and compatible across their relation).
    pub open spec fn cells_connect(self, x1: int, y1: int, x2: int, y2: int) -> bool {
        match (self.kind_at(x1, y1), self.kind_at(x2, y2)) {
            (Some(ka), Some(kb)) => kinds_connect(ka, spec_adjacency_of(x1 - x2, y1 - y2), kb),
            _ => false,
        }
    }

    /// The neighbors a cell consults during edge-reachability propagation:
    /// cells in column 0 consult only their right-hand neighbors and cells in
    /// the last column only their left-hand ones, since the boundary edges
    /// themselves are not crossed; every other cell consults all eight.
    pub open spec fn considered_neighbor(self, x: int, y: int, nx2: int, ny2: int) -> bool {
        self.in_cell_bounds(nx2, ny2) && if x == 0 {
            nx2 == x + 1 && -1 <= ny2 - y <= 1
        } else if x == self.width - 1 {
            nx2 == x - 1 && -1 <= ny2 - y <= 1
        } else {
            -1 <= nx2 - x <= 1 && -1 <= ny2 - y <= 1 && !(nx2 == x && ny2 == y)
        }
    }

    /// A witness that a cell reaches the seed column `seed_x`: a nonempty
    /// sequence of chain-eligible positions starting in that column, each
    /// later position connected to its predecessor and consulting it as a
    /// neighbor.
    pub open spec fn is_chain_path(self, seed_x: int, p: Seq<(int, int)>) -> bool {
        &&& p.len() >= 1
        &&& p[0].0 == seed_x
        &&& forall |i: int| 0 <= i < p.len() ==> self.chain_eligible(#[trigger] p[i].0, p[i].1)
        &&& forall |i: int|
            1 <= i < p.len() ==> self.considered_neighbor(
                #[trigger] p[i].0,
                p[i].1,
                p[i - 1].0,
                p[i - 1].1,
            ) && self.cells_connect(p[i].0, p[i].1, p[i - 1].0, p[i - 1].1)
    }

    /// The cell at `(x, y)` is linked by a chain path to the column `seed_x`.
    pub open spec fn reaches_col(self, seed_x: int, x: int, y: int) -> bool {
        exists |p: Seq<(int, int)>| #[trigger]
            self.is_chain_path(seed_x, p) && p.last() == (x, y)
    }

    /// The cell at `(x, y)` is linked to the left edge.
    pub open spec fn reaches_left(self, x: int, y: int) -> bool {
        self.reaches_col(0, x, y)
    }

    /// The cell at `(x, y)` is linked to the right edge.
    pub open spec fn reaches_right(self, x: int, y: int) -> bool {
        self.reaches_col(self.width - 1, x, y)
    }

    /// What recalculation establishes: the fragment at `(x, y)` is active
    /// exactly when it is chain-eligible and linked to both edges.
    pub open spec fn spec_active(self, x: int, y: int) -> bool {
        self.chain_eligible(x, y) && self.reaches_left(x, y) && self.reaches_right(x, y)
    }
}

/// The shape layout of a cell sequence: kinds only, activation flags dropped.
pub open spec fn grid_kinds(cells: Seq<Cell>) -> Seq<Option<LineFragmentKind>> {
    cells.map_values(|c: Cell| spec_cell_kind(c))
}

/// The model of a cell sequence with the given dimensions.
pub open spec fn model_of(cells: Seq<Cell>, w: int, h: int) -> GridModel {
    GridModel { kinds: grid_kinds(cells), width: w, height: h }
}

/// Meeting a node only gets easier as the candidate set grows.
pub proof fn lemma_connects_across_monotone(
    m: GridModel,
    cx: int,
    cy: int,
    nx: int,
    ny: int,
    s1: Set<(int, int)>,
    s2: Set<(int, int)>,
)
    requires
        s1.subset_of(s2),
        m.connects_across(cx, cy, nx, ny, s1),
    ensures
        m.connects_across(cx, cy, nx, ny, s2),
{
}

/// A node's degree only grows as the candidate set grows.
pub proof fn lemma_node_degree_monotone(
    m: GridModel,
    nx: int,
    ny: int,
    s1: Set<(int, int)>,
    s2: Set<(int, int)>,
)
    requires
        s1.subset_of(s2),
    ensures
        m.node_degree(nx, ny, s1) <= m.node_degree(nx, ny, s2),
{
    if m.connects_across(nx, ny, nx, ny, s1) {
        lemma_connects_across_monotone(m, nx, ny, nx, ny, s1, s2);
    }
    if m.connects_across(nx, ny - 1, nx, ny, s1) {
        lemma_connects_across_monotone(m, nx, ny - 1, nx, ny, s1, s2);
    }
    if m.connects_across(nx - 1, ny - 1, nx, ny, s1) {
        lemma_connects_across_monotone(m, nx - 1, ny - 1, nx, ny, s1, s2);
    }
    if m.connects_across(nx - 1, ny, nx, ny, s1) {
        lemma_connects_across_monotone(m, nx - 1, ny, nx, ny, s1, s2);
    }
}

/// Every member of a closed set is live, by that very set.
pub proof fn lemma_closed_member_live(m: GridModel, s: Set<(int, int)>, nx: int, ny: int)
    requires
        m.closed_node_set(s),
        s.contains((nx, ny)),
    ensures
        m.node_live(nx, ny),
{
}

/// A chain-eligible cell in the seed column reaches it by the one-cell path.
pub proof fn lemma_reaches_seed(m: GridModel, seed_x: int, x: int, y: int)
    requires
        m.chain_eligible(x, y),
        x == seed_x,
    ensures
        m.reaches_col(seed_x, x, y),
{
    let p = seq![(x, y)];
    assert(m.is_chain_path(seed_x, p));
    assert(p.last() == (x, y));
}

/// Extending a chain path by one connected considered neighbor.
pub proof fn lemma_reaches_step(m: GridModel, seed_x: int, x2: int, y2: int, x: int, y: int)
    requires
        m.reaches_col(seed_x, x2, y2),
        m.chain_eligible(x, y),
        m.considered_neighbor(x, y, x2, y2),
        m.cells_connect(x, y, x2, y2),
    ensures
        m.reaches_col(seed_x, x, y),
{
    let p = choose |p: Seq<(int, int)>| #[trigger]
        m.is_chain_path(seed_x, p) && p.last() == (x2, y2);
    let q = p.push((x, y));
    assert forall |i: int| 0 <= i < q.len() implies m.chain_eligible(
        #[trigger] q[i].0,
        q[i].1,
    ) by {
        if i < p.len() {
            assert(q[i] == p[i]);
        }
    }
    assert forall |i: int|
        1 <= i < q.len() implies m.considered_neighbor(
        #[trigger] q[i].0,
        q[i].1,
        q[i - 1].0,
        q[i - 1].1,
    ) && m.cells_connect(q[i].0, q[i].1, q[i - 1].0, q[i - 1].1) by {
        if i < p.len() {
            assert(q[i] == p[i] && q[i - 1] == p[i - 1]);
        } else {
            assert(q[i] == (x, y) && q[i - 1] == p[p.len() - 1]);
            assert(p[p.len() - 1] == (x2, y2));
        }
    }
    assert(m.is_chain_path(seed_x, q));
    assert(q.last() == (x, y));
}

/// A cell that reaches a seed column is chain-eligible (the path ends at it).
pub proof fn lemma_reaches_eligible(m: GridModel, seed_x: int, x: int, y: int)
    requires
        m.reaches_col(seed_x, x, y),
    ensures
        m.chain_eligible(x, y),
{
    let p = choose |p: Seq<(int, int)>| #[trigger]
        m.is_chain_path(seed_x, p) && p.last() == (x, y);
    assert(p[p.len() - 1] == (x, y));
    assert(m.chain_eligible(p[p.len() - 1].0, p[p.len() - 1].1));
}

/// A chain-eligible cell lies inside the grid.
pub proof fn lemma_eligible_in_bounds(m: GridModel, x: int, y: int)
    requires
        m.chain_eligible(x, y),
    ensures
        m.in_cell_bounds(x, y),
{
    if !m.in_cell_bounds(x, y) {
        assert(m.kind_at(x, y) is None);
    }
}

} // verus!
