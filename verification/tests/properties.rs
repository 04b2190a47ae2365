use std::collections::HashSet;

use gunpey_lib::adjacency::adjacency_of_grid_positions;
use gunpey_lib::grid_algorithms::{grid_pos_to_corner_nodes, index_to_corner_nodes};
use gunpey_lib::cell::Cell;
use gunpey_lib::error::GunpeyLibError;
use gunpey_lib::grid::Grid;
use gunpey_lib::grid_pos::{gp, GridPos};
use gunpey_lib::line_fragment::{LineFragment, LineFragmentKind};
use gunpey_lib::new_small_grid;

/// Independent oracle for the activation rule: prunes dangling corner nodes
/// with a set, then runs a breadth-first search from each boundary column,
/// instead of the library's fixpoint sweeps.
fn oracle_active(grid: &Grid) -> Vec<Vec<u8>> {
    let w = grid.width as isize;
    let h = grid.height as isize;
    let cell_at = |x: isize, y: isize| -> Cell { *grid.get_cell_at_pos(&gp(x, y)).unwrap() };

    // Prune: a node stays only while at least two of its four surrounding
    // cells meet it (off-grid left/right counts, off-grid top/bottom not).
    let mut live: HashSet<(isize, isize)> = HashSet::new();
    for ny in 0..=h {
        for nx in 0..=w {
            live.insert((nx, ny));
        }
    }
    loop {
        let mut removed = false;
        for ny in 0..=h {
            for nx in 0..=w {
                if !live.contains(&(nx, ny)) {
                    continue;
                }
                let mut deg = 0;
                for (cx, cy) in [(nx, ny), (nx, ny - 1), (nx - 1, ny - 1), (nx - 1, ny)] {
                    if cx < 0 || cx >= w {
                        deg += 1;
                        continue;
                    }
                    if cy < 0 || cy >= h {
                        continue;
                    }
                    let cell = cell_at(cx, cy);
                    let corners = cell.corner_nodes(&gp(cx, cy));
                    if corners.len() == 2 {
                        let a = (corners[0].x, corners[0].y);
                        let b = (corners[1].x, corners[1].y);
                        if a == (nx, ny) && live.contains(&b) {
                            deg += 1;
                        } else if b == (nx, ny) && live.contains(&a) {
                            deg += 1;
                        }
                    }
                }
                if deg < 2 {
                    live.remove(&(nx, ny));
                    removed = true;
                }
            }
        }
        if !removed {
            break;
        }
    }

    let eligible = |x: isize, y: isize| -> bool {
        let cell = cell_at(x, y);
        let corners = cell.corner_nodes(&gp(x, y));
        corners.len() == 2
            && live.contains(&(corners[0].x, corners[0].y))
            && live.contains(&(corners[1].x, corners[1].y))
    };

    // The neighbors a cell consults: boundary columns look only inward.
    let considers = |x: isize, y: isize, x2: isize, y2: isize| -> bool {
        let in_bounds = 0 <= x2 && x2 < w && 0 <= y2 && y2 < h;
        in_bounds
            && if x == 0 {
                x2 == x + 1 && (y2 - y).abs() <= 1
            } else if x == w - 1 {
                x2 == x - 1 && (y2 - y).abs() <= 1
            } else {
                (x2 - x).abs() <= 1 && (y2 - y).abs() <= 1 && !(x2 == x && y2 == y)
            }
    };
    let connected = |x: isize, y: isize, x2: isize, y2: isize| -> bool {
        let a = cell_at(x, y);
        let b = cell_at(x2, y2);
        a.is_connected_to(&b, adjacency_of_grid_positions(gp(x, y), gp(x2, y2)))
    };

    let bfs = |seed_x: isize| -> HashSet<(isize, isize)> {
        let mut marked: HashSet<(isize, isize)> = HashSet::new();
        let mut queue: Vec<(isize, isize)> = Vec::new();
        for y in 0..h {
            if eligible(seed_x, y) {
                marked.insert((seed_x, y));
                queue.push((seed_x, y));
            }
        }
        while let Some((mx, my)) = queue.pop() {
            for y in 0..h {
                for x in 0..w {
                    if !marked.contains(&(x, y))
                        && eligible(x, y)
                        && considers(x, y, mx, my)
                        && connected(x, y, mx, my)
                    {
                        marked.insert((x, y));
                        queue.push((x, y));
                    }
                }
            }
        }
        marked
    };
    let left = bfs(0);
    let right = bfs(w - 1);

    let mut out: Vec<Vec<u8>> = Vec::new();
    for ry in 0..h {
        let y = h - 1 - ry;
        let mut row = Vec::new();
        for x in 0..w {
            let active = left.contains(&(x, y)) && right.contains(&(x, y));
            row.push(if active { 1 } else { 0 });
        }
        out.push(row);
    }
    out
}

fn assert_matches_oracle(mut grid: Grid) {
    grid.recalculate_active_cells();
    assert_eq!(oracle_active(&grid), grid.as_active_bitmask());
}

#[test]
fn recalculation_matches_oracle_on_scenarios() {
    assert_matches_oracle(Grid::new_from_chars(vec![
        vec!['.', '∧', '.'],
        vec!['/', '.', '∨'],
    ]));
    assert_matches_oracle(Grid::new_from_str(
        r#"
            .rc
            ri.
        "#,
    ));
    assert_matches_oracle(Grid::new_from_chars(vec![
        vec!['/', '.'],
        vec!['.', '/'],
    ]));
    assert_matches_oracle(Grid::new_from_chars(vec![
        vec!['.', '.', '.', '∧', '.'],
        vec!['∧', '∧', '/', '.', '\\'],
        vec!['.', '\\', '\\', '/', '∨'],
        vec!['.', '.', '∨', '\\', '∧'],
        vec!['.', '.', '.', '.', '∨'],
    ]));
    // single column: both boundary columns coincide
    assert_matches_oracle(Grid::new_from_chars(vec![vec!['∧'], vec!['∨']]));
    // empty grid
    assert_matches_oracle(Grid::new(4, 3));
    // a chain with a dangling stub hanging off it
    assert_matches_oracle(Grid::new_from_chars(vec![
        vec!['.', '\\', '.', '.'],
        vec!['∧', '∧', '∧', '∧'],
        vec!['/', '.', '∨', '\\'],
    ]));
    // fragments meeting at corners in every orientation
    assert_matches_oracle(Grid::new_from_chars(vec![
        vec!['\\', '/', '\\', '/'],
        vec!['/', '\\', '/', '\\'],
        vec!['∨', '∧', '∨', '∧'],
        vec!['∧', '∨', '∧', '∨'],
    ]));
}

#[test]
fn single_column_cells_touch_both_edges() {
    // with one column, x = 0 is both the left and the right boundary, so a
    // chain-eligible fragment is immediately connected to both edges
    let mut grid = Grid::new_from_chars(vec![vec!['∧'], vec!['∨']]);
    grid.recalculate_active_cells();
    let expected: Vec<Vec<u8>> = vec![vec![1], vec![1]];
    assert_eq!(expected, grid.as_active_bitmask());
}

#[test]
fn left_and_right_are_inverse_within_bounds() {
    let grid = Grid::new(3, 2);
    for y in 0..2isize {
        for x in 0..3isize {
            let p = gp(x, y);
            if let Some(q) = grid.right(p) {
                assert_eq!(Some(p), grid.left(q));
            }
            if let Some(q) = grid.left(p) {
                assert_eq!(Some(p), grid.right(q));
            }
        }
    }
}

#[test]
fn swapping_same_pair_twice_restores_grid() {
    let mut grid = Grid::new_from_str(
        r#"
            .rc
            ri.
        "#,
    );
    grid.recalculate_active_cells();
    let snapshot = grid.cells.clone();

    assert!(grid.swap_cells(gp(0, 0), gp(2, 1)).is_ok());
    assert!(grid.swap_cells(gp(0, 0), gp(2, 1)).is_ok());

    assert_eq!(snapshot, grid.cells);
}

#[test]
fn swap_with_identical_positions_fails_with_same_target() {
    let mut empty = Grid::new(2, 2);
    let p = gp(1, 1);
    assert_eq!(
        Err(GunpeyLibError::CantSwapSamePositon(p, p)),
        empty.swap_cells(p, p)
    );

    let mut filled = Grid::new_from_str(
        r#"
            cc
            ll
        "#,
    );
    let q = gp(0, 0);
    assert_eq!(
        Err(GunpeyLibError::CantSwapSamePositon(q, q)),
        filled.swap_cells(q, q)
    );
}

#[test]
fn swap_out_of_bounds_fails_and_leaves_grid_unmodified() {
    let mut grid = Grid::new_from_str(
        r#"
            cc
            ll
        "#,
    );
    let snapshot = grid.cells.clone();
    let a = gp(0, 0);
    let b = gp(0, 5);
    assert_eq!(
        Err(GunpeyLibError::CantSwapBadPosition {
            a,
            b,
            width: 2,
            height: 2,
        }),
        grid.swap_cells(a, b)
    );
    assert_eq!(snapshot, grid.cells);

    let c = gp(-1, 0);
    assert_eq!(
        Err(GunpeyLibError::CantSwapBadPosition {
            a: c,
            b: a,
            width: 2,
            height: 2,
        }),
        grid.swap_cells(c, a)
    );
    assert_eq!(snapshot, grid.cells);
}

#[test]
fn swap_of_distinct_positions_with_same_index_fails() {
    // In a 3-wide grid, (5, 0) and (2, 1) share the linear index 5.
    let mut grid = Grid::new(3, 2);
    let snapshot = grid.cells.clone();
    assert_eq!(
        Err(GunpeyLibError::CantSwapSameIndex(5, 5)),
        grid.swap_cells(gp(5, 0), gp(2, 1))
    );
    assert_eq!(snapshot, grid.cells);
}

#[test]
fn no_empty_cell_is_ever_active_after_recalculation() {
    let mut grid = Grid::new_from_chars(vec![
        vec!['.', '∧', '.'],
        vec!['/', '.', '∨'],
    ]);
    grid.recalculate_active_cells();
    for y in 0..2isize {
        for x in 0..3isize {
            let p = gp(x, y);
            if grid.is_cell_empty(&p) {
                assert!(!grid.is_cell_active(&p));
            }
        }
    }
}

#[test]
fn pop_then_push_restores_grid_with_equal_rows() {
    let mut grid = Grid::new_from_str(
        r#"
            cic
            cic
        "#,
    );
    grid.recalculate_active_cells();
    let snapshot = grid.cells.clone();

    let popped = grid.pop_top_row();
    assert_eq!(Ok(()), grid.push_bottom_row(popped));

    assert_eq!(snapshot, grid.cells);
}

#[test]
fn pop_then_push_cycles_rows() {
    let mut grid = Grid::new_from_str(
        r#"
            .cc
            .l.
            ..l
        "#,
    );
    let popped = grid.pop_top_row();
    assert_eq!(Ok(()), grid.push_bottom_row(popped));

    // the old top row is now the bottom row; everything else moved up
    let mut expected = Grid::new_from_str(
        r#"
            .l.
            ..l
            .cc
        "#,
    );
    expected.recalculate_active_cells();
    assert_eq!(expected.cells, grid.cells);
}

#[test]
fn push_with_wrong_row_length_fails() {
    let mut grid = Grid::new_from_str(
        r#"
            .cc
            .l.
        "#,
    );
    grid.pop_top_row();
    let short_row = vec![Cell::Empty, Cell::Empty];
    assert_eq!(
        Err(GunpeyLibError::InvalidRowLength(2, 3)),
        grid.push_bottom_row(short_row)
    );
    // pushing a row of the right width succeeds
    let fitting_row = vec![Cell::Empty, Cell::Empty, Cell::Empty];
    assert_eq!(Ok(()), grid.push_bottom_row(fitting_row));
}

#[test]
fn swap_changes_activation_and_back() {
    let mut grid = Grid::new_from_chars(vec![
        vec!['.', '∧', '.'],
        vec!['/', '.', '∨'],
    ]);
    grid.recalculate_active_cells();
    let lit: Vec<Vec<u8>> = vec![vec![0, 1, 0], vec![1, 0, 1]];
    assert_eq!(lit, grid.as_active_bitmask());

    // moving the caret down breaks the chain
    assert_eq!(Ok(()), grid.swap_cells(gp(1, 1), gp(1, 0)));
    let dark: Vec<Vec<u8>> = vec![vec![0, 0, 0], vec![0, 0, 0]];
    assert_eq!(dark, grid.as_active_bitmask());

    // moving it back restores the chain
    assert_eq!(Ok(()), grid.swap_cells(gp(1, 0), gp(1, 1)));
    assert_eq!(lit, grid.as_active_bitmask());
}

#[test]
fn set_cell_replaces_and_recalculates() {
    let mut grid = Grid::new_from_chars(vec![
        vec!['.', '∧', '.'],
        vec!['/', '.', '∨'],
    ]);
    grid.recalculate_active_cells();
    grid.set_cell(&gp(1, 1), Cell::Empty);
    let dark: Vec<Vec<u8>> = vec![vec![0, 0, 0], vec![0, 0, 0]];
    assert_eq!(dark, grid.as_active_bitmask());
}

#[test]
fn encoding_round_trips() {
    for c in ['∧', '∨', '\\', '/'] {
        assert_eq!(c, LineFragmentKind::from_char(&c).to_char());
    }
    for s in ["C", "c", "I", "i", "L", "l", "R", "r"] {
        assert_eq!(s, LineFragment::from_str(s).to_str());
    }
    for s in [".", "c", "I", "r"] {
        assert_eq!(s, Cell::from_str(s).to_str());
    }
    assert_eq!('.', Cell::Empty.to_char());
    assert_eq!('∧', Cell::from_char(&'∧').to_char());
}

#[test]
fn as_chars_reports_layout_top_down() {
    let grid = Grid::new_from_chars(vec![
        vec!['.', '∧', '.'],
        vec!['/', '.', '∨'],
    ]);
    let expected: Vec<Vec<char>> = vec![
        vec!['.', '∧', '.'],
        vec!['/', '.', '∨'],
    ];
    assert_eq!(expected, grid.as_chars());

    let rows = grid.cell_rows_in_render_order();
    assert_eq!(2, rows.len());
    assert_eq!(Cell::from_char(&'∧'), rows[0][1]);
    assert_eq!(Cell::from_char(&'/'), rows[1][0]);
}

#[test]
fn new_small_grid_is_five_by_ten_and_empty() {
    let grid = new_small_grid();
    assert_eq!(5, grid.width);
    assert_eq!(10, grid.height);
    assert!(grid.cells.iter().all(|c| c.is_empty()));
}

#[test]
fn old_recalculation_matches_on_spanning_chain() {
    let mut grid = Grid::new_from_chars(vec![
        vec!['.', '∧', '.'],
        vec!['/', '.', '∨'],
    ]);
    grid.recalculate_active_cells_old();
    let expected: Vec<Vec<u8>> = vec![vec![0, 1, 0], vec![1, 0, 1]];
    assert_eq!(expected, grid.as_active_bitmask());
}

#[test]
fn old_recalculation_leaves_disconnected_grid_inactive() {
    let mut grid = Grid::new_from_chars(vec![
        vec!['/', '.'],
        vec!['.', '/'],
    ]);
    grid.recalculate_active_cells_old();
    let expected: Vec<Vec<u8>> = vec![vec![0, 0], vec![0, 0]];
    assert_eq!(expected, grid.as_active_bitmask());
}

#[test]
fn get_mut_cell_at_pos_writes_through() {
    let mut grid = Grid::new(2, 2);
    assert!(grid.get_mut_cell_at_pos(&gp(0, 5)).is_none());
    let cell = grid.get_mut_cell_at_pos(&gp(1, 0)).unwrap();
    *cell = Cell::from_char(&'∧');
    assert_eq!("c", grid.get_cell_at_pos(&gp(1, 0)).unwrap().to_str());
}

#[test]
fn grid_pos_arithmetic() {
    let a = GridPos::new(2, 3);
    let b = GridPos::new(1, -1);
    assert_eq!(GridPos::new(3, 2), a + b);
    assert_eq!(GridPos::new(1, 4), a - b);
}

#[test]
fn adjacency_from_grid_collects_corner_nodes() {
    let grid = Grid::new_from_chars(vec![
        vec!['.', '.', '.'],
        vec!['∧', '∧', '.'],
    ]);
    let adj = gunpey_lib::grid_algorithms::Adjacency::from_grid(&grid);
    assert_eq!(3, adj.map.len());
    assert_eq!((gp(0, 0), vec![gp(1, 0)]), adj.map[0]);
    assert_eq!((gp(1, 0), vec![gp(0, 0), gp(2, 0)]), adj.map[1]);
    assert_eq!((gp(2, 0), vec![gp(1, 0)]), adj.map[2]);
    // node (2, 0) has one edge and is not on a border node column
    assert_eq!(vec![(gp(2, 0), gp(1, 0))], adj.corner_nodes_with_one_edge());
}

#[test]
fn corner_node_mapping() {
    let p = gp(2, 3);
    assert_eq!((gp(2, 3), gp(3, 3)), grid_pos_to_corner_nodes(p, &LineFragmentKind::Caret));
    assert_eq!(
        (gp(2, 4), gp(3, 4)),
        grid_pos_to_corner_nodes(p, &LineFragmentKind::InvertedCaret)
    );
    assert_eq!((gp(2, 4), gp(3, 3)), grid_pos_to_corner_nodes(p, &LineFragmentKind::LeftSlash));
    assert_eq!((gp(2, 3), gp(3, 4)), grid_pos_to_corner_nodes(p, &LineFragmentKind::RightSlash));
    assert_eq!((gp(2, 1), gp(3, 1)), index_to_corner_nodes(5, &LineFragmentKind::Caret, 3));
}

#[test]
fn grid_pos_helpers() {
    let p = GridPos::new(3, 4);
    assert_eq!((3, 4), p.to_tuple());
    assert_eq!(gp(3, 4), p);
}
