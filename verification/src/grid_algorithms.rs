//! Corner-node helpers: mapping a filled cell (by index or position) to the
//! pair of lattice nodes its fragment spans.

use vstd::prelude::*;

use crate::grid::Grid;
use crate::grid_pos::{gp, GridPos};
use crate::line_fragment::{fragment_corner_a, fragment_corner_b, LineFragmentKind};

verus! {

/// The corner-node adjacency list of a grid: for every corner node touched
/// by at least one fragment, the other endpoints of those fragments, in the
/// order the cells were visited.
pub struct Adjacency {
    pub map: Vec<(GridPos, Vec<GridPos>)>,
    pub width: usize,
}

/// The neighbors of the corner node `n` in the node graph of a cell layout:
/// for every filled cell (in index order) one endpoint of which is `n`, the
/// fragment's other endpoint.
pub open spec fn spec_node_neighbors(
    ks: Seq<Option<LineFragmentKind>>,
    w: int,
    n: (int, int),
) -> Seq<(int, int)>
    decreases ks.len(),
{
    if ks.len() == 0 {
        Seq::empty()
    } else {
        let prefix = spec_node_neighbors(ks.drop_last(), w, n);
        let i = ks.len() - 1;
        match ks.last() {
            None => prefix,
            Some(k) => {
                let a = fragment_corner_a(k, i % w, i / w);
                let b = fragment_corner_b(k, i % w, i / w);
                if a == n {
                    prefix.push(b)
                } else if b == n {
                    prefix.push(a)
                } else {
                    prefix
                }
            },
        }
    }
}

/// A node-position sequence as integer pairs.
pub open spec fn node_pairs_view(v: Seq<GridPos>) -> Seq<(int, int)> {
    v.map_values(|p: GridPos| (p.x as int, p.y as int))
}

/// Appends `val` to the entry of `key`, creating the entry at the end if the
/// key is new.
fn push_neighbor(map: &mut Vec<(GridPos, Vec<GridPos>)>, key: GridPos, val: GridPos)
    ensures
        (exists |j: int| 0 <= j < old(map)@.len() && (#[trigger] old(map)@[j]).0 == key)
            ==> exists |j: int|
            {
                &&& 0 <= j < old(map)@.len()
                &&& (#[trigger] old(map)@[j]).0 == key
                &&& final(map)@.len() == old(map)@.len()
                &&& (forall |j2: int|
                    0 <= j2 < old(map)@.len() && j2 != j ==> final(map)@[j2] == old(map)@[j2])
                &&& final(map)@[j].0 == key
                &&& final(map)@[j].1@ == old(map)@[j].1@.push(val)
            },
        (forall |j: int| 0 <= j < old(map)@.len() ==> (#[trigger] old(map)@[j]).0 != key) ==> {
            &&& final(map)@.len() == old(map)@.len() + 1
            &&& (forall |j: int| 0 <= j < old(map)@.len() ==> final(map)@[j] == old(map)@[j])
            &&& final(map)@[old(map)@.len() as int].0 == key
            &&& final(map)@[old(map)@.len() as int].1@ == seq![val]
        },
{
    let n = map.len();
    let mut j: usize = 0;
    while j < n
        invariant
            n == map@.len(),
            map@ == old(map)@,
            j <= n,
            forall |j2: int| 0 <= j2 < j ==> (#[trigger] map@[j2]).0 != key,
        decreases n - j,
    {
        let found = map[j].0 == key;
        if found {
            let ghost pre = map@;
            let entry = &mut map[j];
            let pushed_val = val;
            entry.1.push(pushed_val);
            proof {
                assert(map@[j as int].1@ == pre[j as int].1@.push(val));
                assert(pre == old(map)@);
                assert((old(map)@[j as int]).0 == key);
            }
            return;
        }
        j = j + 1;
    }
    let mut fresh: Vec<GridPos> = Vec::new();
    fresh.push(val);
    proof {
        assert(fresh@ =~= seq![val]);
    }
    map.push((key, fresh));
}

impl Adjacency {
    /// Builds the node adjacency list of a grid: every filled cell links its
    /// fragment's two endpoints to each other.
    pub fn from_grid(grid: &Grid) -> (r: Self)
        requires
            grid.wf(),
            grid.cells@.len() <= isize::MAX as usize,
        ensures
            r.width == grid.width,
            forall |j1: int, j2: int|
                0 <= j1 < j2 < r.map@.len() ==> (#[trigger] r.map@[j1]).0 != (#[trigger]
                r.map@[j2]).0,
            forall |j: int|
                0 <= j < r.map@.len() ==> node_pairs_view((#[trigger] r.map@[j]).1@)
                    == spec_node_neighbors(
                    grid.model().kinds,
                    grid.model().width,
                    (r.map@[j].0.x as int, r.map@[j].0.y as int),
                ) && r.map@[j].1@.len() >= 1,
            forall |n: GridPos|
                spec_node_neighbors(
                    grid.model().kinds,
                    grid.model().width,
                    (n.x as int, n.y as int),
                ).len() >= 1 ==> exists |j: int|
                    0 <= j < r.map@.len() && (#[trigger] r.map@[j]).0 == n,
    {
        let ghost m = grid.model();
        let w = grid.width;
        let mut map: Vec<(GridPos, Vec<GridPos>)> = Vec::new();
        let len = grid.cells.len();
        let mut i: usize = 0;
        while i < len
            invariant
                grid.wf(),
                m == grid.model(),
                w == grid.width,
                len == grid.cells@.len(),
                len <= isize::MAX as usize,
                i <= len,
                forall |j1: int, j2: int|
                    0 <= j1 < j2 < map@.len() ==> (#[trigger] map@[j1]).0 != (#[trigger]
                    map@[j2]).0,
                forall |j: int|
                    0 <= j < map@.len() ==> node_pairs_view((#[trigger] map@[j]).1@)
                        == spec_node_neighbors(
                        m.kinds.take(i as int),
                        m.width,
                        (map@[j].0.x as int, map@[j].0.y as int),
                    ) && map@[j].1@.len() >= 1,
                forall |n: GridPos|
                    spec_node_neighbors(
                        m.kinds.take(i as int),
                        m.width,
                        (n.x as int, n.y as int),
                    ).len() >= 1 ==> exists |j: int|
                        0 <= j < map@.len() && (#[trigger] map@[j]).0 == n,
            decreases len - i,
        {
            let cell = grid.cells[i];
            proof {
                assert(m.kinds[i as int] == crate::cell::spec_cell_kind(grid.cells@[i as int]));
                assert(m.kinds.take(i as int + 1).drop_last() =~= m.kinds.take(i as int));
                assert(m.kinds.take(i as int + 1).last() == m.kinds[i as int]);
            }
            let ghost ks0 = m.kinds.take(i as int);
            let ghost ks1 = m.kinds.take(i as int + 1);
            match cell {
                crate::cell::Cell::Filled(lf) => {
                    let (grid_pos_a, grid_pos_b) = index_to_corner_nodes(i, &lf.kind, w);
                    let ghost ap = fragment_corner_a(lf.kind, i as int % m.width, i as int / m.width);
                    let ghost bp = fragment_corner_b(lf.kind, i as int % m.width, i as int / m.width);
                    proof {
                        assert((grid_pos_a.x as int, grid_pos_a.y as int) == ap);
                        assert((grid_pos_b.x as int, grid_pos_b.y as int) == bp);
                        assert(ap.0 != bp.0);
                        assert(grid_pos_a != grid_pos_b);
                        assert forall |n: (int, int)| #[trigger] spec_node_neighbors(ks1, m.width, n)
                            == (if n == ap {
                                spec_node_neighbors(ks0, m.width, n).push(bp)
                            } else if n == bp {
                                spec_node_neighbors(ks0, m.width, n).push(ap)
                            } else {
                                spec_node_neighbors(ks0, m.width, n)
                            }) by {}
                    }
                    let ghost map0 = map@;
                    push_neighbor(&mut map, grid_pos_a, grid_pos_b);
                    let ghost map1 = map@;
                    push_neighbor(&mut map, grid_pos_b, grid_pos_a);
                    proof {
                        let vm = m.width;
                        // where the entry of `grid_pos_a` sits in `map1`
                        let a_existed = exists |j: int|
                            0 <= j < map0.len() && (#[trigger] map0[j]).0 == grid_pos_a;
                        let ja: int = if a_existed {
                            choose |j: int|
                                0 <= j < map0.len() && (#[trigger] map0[j]).0 == grid_pos_a
                                    && map1.len() == map0.len() && (forall |j2: int|
                                    0 <= j2 < map0.len() && j2 != j ==> map1[j2] == map0[j2])
                                    && map1[j].0 == grid_pos_a && map1[j].1@ == map0[j].1@.push(
                                    grid_pos_b,
                                )
                        } else {
                            map0.len() as int
                        };
                        if a_existed {
                            assert(node_pairs_view(map1[ja].1@) =~= node_pairs_view(
                                map0[ja].1@,
                            ).push(bp));
                        } else {
                            if spec_node_neighbors(ks0, vm, ap).len() >= 1 {
                                assert(exists |j: int|
                                    0 <= j < map0.len() && (#[trigger] map0[j]).0 == grid_pos_a);
                                assert(false);
                            }
                            assert(spec_node_neighbors(ks0, vm, ap) =~= Seq::<(int, int)>::empty());
                            assert(node_pairs_view(map1[ja].1@) =~= seq![bp]);
                            assert(node_pairs_view(map1[ja].1@) =~= spec_node_neighbors(
                                ks0,
                                vm,
                                ap,
                            ).push(bp));
                        }
                        assert(0 <= ja < map1.len());
                        assert(map1[ja].0 == grid_pos_a);
                        assert(node_pairs_view(map1[ja].1@) == spec_node_neighbors(ks0, vm, ap).push(
                            bp,
                        ));
                        assert(forall |j: int|
                            0 <= j < map0.len() ==> (#[trigger] map1[j]).0 == map0[j].0);
                        assert(forall |j: int|
                            0 <= j < map1.len() && j != ja ==> #[trigger] map1[j] == map0[j]);
                        assert(forall |j1: int, j2: int|
                            0 <= j1 < j2 < map1.len() ==> (#[trigger] map1[j1]).0 != (#[trigger]
                            map1[j2]).0);
                        // where the entry of `grid_pos_b` sits afterwards
                        let b_existed = exists |j: int|
                            0 <= j < map1.len() && (#[trigger] map1[j]).0 == grid_pos_b;
                        let jb: int = if b_existed {
                            choose |j: int|
                                0 <= j < map1.len() && (#[trigger] map1[j]).0 == grid_pos_b
                                    && map@.len() == map1.len() && (forall |j2: int|
                                    0 <= j2 < map1.len() && j2 != j ==> map@[j2] == map1[j2])
                                    && map@[j].0 == grid_pos_b && map@[j].1@ == map1[j].1@.push(
                                    grid_pos_a,
                                )
                        } else {
                            map1.len() as int
                        };
                        if b_existed {
                            assert(jb != ja);
                            assert(map1[jb] == map0[jb]);
                            assert(node_pairs_view(map@[jb].1@) =~= node_pairs_view(
                                map0[jb].1@,
                            ).push(ap));
                        } else {
                            if spec_node_neighbors(ks0, vm, bp).len() >= 1 {
                                assert(exists |j: int|
                                    0 <= j < map0.len() && (#[trigger] map0[j]).0 == grid_pos_b);
                                let jx = choose |j: int|
                                    0 <= j < map0.len() && (#[trigger] map0[j]).0 == grid_pos_b;
                                assert(map1[jx].0 == grid_pos_b);
                                assert(false);
                            }
                            assert(spec_node_neighbors(ks0, vm, bp) =~= Seq::<(int, int)>::empty());
                            assert(node_pairs_view(map@[jb].1@) =~= seq![ap]);
                        }
                        assert(0 <= jb < map@.len());
                        assert(jb != ja);
                        assert(map@[jb].0 == grid_pos_b);
                        assert(node_pairs_view(map@[jb].1@) == spec_node_neighbors(ks0, vm, bp).push(
                            ap,
                        ));
                        assert(forall |j: int|
                            0 <= j < map@.len() && j != jb ==> #[trigger] map@[j] == map1[j]);
                        assert(forall |j: int|
                            0 <= j < map1.len() ==> (#[trigger] map@[j]).0 == map1[j].0);
                        // uniqueness of the result
                        assert forall |j1: int, j2: int|
                            0 <= j1 < j2 < map@.len() implies (#[trigger] map@[j1]).0 != (
                        #[trigger] map@[j2]).0 by {
                            if j2 < map1.len() {
                            } else {
                                assert(j2 == jb && !b_existed);
                                assert(map@[j1].0 == map1[j1].0);
                            }
                        }
                        // every entry's list matches the extended layout
                        assert forall |j: int|
                            0 <= j < map@.len() implies node_pairs_view((#[trigger] map@[j]).1@)
                            == spec_node_neighbors(
                            ks1,
                            vm,
                            (map@[j].0.x as int, map@[j].0.y as int),
                        ) && map@[j].1@.len() >= 1 by {
                            if j == ja {
                                assert(map@[ja] == map1[ja]);
                            } else if j == jb {
                            } else {
                                assert(map@[j] == map1[j] && map1[j] == map0[j]);
                                assert(map@[j].0 != grid_pos_a && map@[j].0 != grid_pos_b);
                                assert((map@[j].0.x as int, map@[j].0.y as int) != ap);
                                assert((map@[j].0.x as int, map@[j].0.y as int) != bp);
                            }
                        }
                        // every touched node has an entry
                        assert forall |n: GridPos|
                            spec_node_neighbors(ks1, vm, (n.x as int, n.y as int)).len()
                                >= 1 implies exists |j: int|
                                0 <= j < map@.len() && (#[trigger] map@[j]).0 == n by {
                            let np = (n.x as int, n.y as int);
                            if np == ap {
                                assert(n == grid_pos_a);
                                assert(map@[ja].0 == n);
                            } else if np == bp {
                                assert(map@[jb].0 == n);
                            } else {
                                assert(spec_node_neighbors(ks0, vm, np).len() >= 1);
                                let j0 = choose |j: int|
                                    0 <= j < map0.len() && (#[trigger] map0[j]).0 == n;
                                assert(map@[j0].0 == map1[j0].0 && map1[j0].0 == map0[j0].0);
                            }
                        }
                    }
                },
                crate::cell::Cell::Empty => {
                    proof {
                        assert forall |n: (int, int)| #[trigger] spec_node_neighbors(ks1, m.width, n)
                            == spec_node_neighbors(ks0, m.width, n) by {}
                    }
                },
            }
            i = i + 1;
        }
        proof {
            assert(m.kinds.take(len as int) =~= m.kinds);
        }
        Self { map, width: w }
    }

    /// The corner nodes with exactly one attached fragment endpoint that do
    /// not sit on the left or right border column of the node lattice, each
    /// with its single neighbor.
    pub fn corner_nodes_with_one_edge(&self) -> (r: Vec<(GridPos, GridPos)>)
        ensures
            forall |e: (GridPos, GridPos)| #[trigger]
                r@.contains(e) <==> exists |j: int|
                    {
                        &&& 0 <= j < self.map@.len()
                        &&& (#[trigger] self.map@[j]).0 == e.0
                        &&& self.map@[j].1@ == seq![e.1]
                        &&& e.0.x != 0
                        &&& e.0.x as int != self.width as int
                    },
    {
        let mut r: Vec<(GridPos, GridPos)> = Vec::new();
        let n = self.map.len();
        let mut j: usize = 0;
        while j < n
            invariant
                n == self.map@.len(),
                j <= n,
                forall |e: (GridPos, GridPos)| #[trigger]
                    r@.contains(e) <==> exists |j2: int|
                        {
                            &&& 0 <= j2 < j
                            &&& (#[trigger] self.map@[j2]).0 == e.0
                            &&& self.map@[j2].1@ == seq![e.1]
                            &&& e.0.x != 0
                            &&& e.0.x as int != self.width as int
                        },
            decreases n - j,
        {
            let key = self.map[j].0;
            let hit = self.map[j].1.len() == 1 && key.x != 0 && (key.x as i128) != (self.width
                as i128);
            if hit {
                let val = self.map[j].1[0];
                let ghost before = r@;
                r.push((key, val));
                proof {
                    assert(self.map@[j as int].1@ =~= seq![val]);
                    assert forall |e: (GridPos, GridPos)| #[trigger]
                        r@.contains(e) <==> (before.contains(e) || e == (key, val)) by {
                        crate::grid::lemma_pair_push_contains(before, (key, val), e);
                    }
                }
            } else {
                proof {
                    if self.map@[j as int].1@.len() == 1 {
                        assert(self.map@[j as int].1@ =~= seq![self.map@[j as int].1@[0]]);
                    }
                }
            }
            j = j + 1;
        }
        r
    }
}

/// The two corner nodes of a fragment of kind `kind` in the cell at
/// `grid_pos`.
pub fn grid_pos_to_corner_nodes(grid_pos: GridPos, kind: &LineFragmentKind) -> (r: (
    GridPos,
    GridPos,
))
    requires
        grid_pos.x < isize::MAX,
        grid_pos.y < isize::MAX,
    ensures
        (r.0.x as int, r.0.y as int) == fragment_corner_a(*kind, grid_pos.x as int, grid_pos.y as int),
        (r.1.x as int, r.1.y as int) == fragment_corner_b(*kind, grid_pos.x as int, grid_pos.y as int),
{
    (
        match kind {
            LineFragmentKind::Caret => grid_pos,
            LineFragmentKind::InvertedCaret => gp(grid_pos.x, grid_pos.y + 1),
            LineFragmentKind::LeftSlash => gp(grid_pos.x, grid_pos.y + 1),
            LineFragmentKind::RightSlash => grid_pos,
        },
        match kind {
            LineFragmentKind::Caret => gp(grid_pos.x + 1, grid_pos.y),
            LineFragmentKind::InvertedCaret => gp(grid_pos.x + 1, grid_pos.y + 1),
            LineFragmentKind::LeftSlash => gp(grid_pos.x + 1, grid_pos.y),
            LineFragmentKind::RightSlash => gp(grid_pos.x + 1, grid_pos.y + 1),
        },
    )
}

/// The two corner nodes of a fragment of kind `kind` in the cell with linear
/// index `index`, in a grid `width` cells wide.
pub fn index_to_corner_nodes(index: usize, kind: &LineFragmentKind, width: usize) -> (r: (
    GridPos,
    GridPos,
))
    requires
        width >= 1,
        index < isize::MAX as usize,
    ensures
        ({
            let x = index as int % width as int;
            let y = index as int / width as int;
            &&& (r.0.x as int, r.0.y as int) == fragment_corner_a(*kind, x, y)
            &&& (r.1.x as int, r.1.y as int) == fragment_corner_b(*kind, x, y)
        }),
{
    let cell_grid_pos = crate::grid::get_pos_from_index(index, width);
    proof {
        assert(index as int % width as int <= index as int && index as int / width as int <= index
            as int) by (nonlinear_arith)
            requires width >= 1, index >= 0;
    }
    grid_pos_to_corner_nodes(cell_grid_pos, kind)
}

} // verus!
