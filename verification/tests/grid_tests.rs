use gunpey_lib::cell::Cell;
use gunpey_lib::grid::{get_pos_from_index, Grid};
use gunpey_lib::grid_pos::{gp, GridPos};
use gunpey_lib::line_fragment::LineFragment;

fn new_2x2_grid() -> Grid {
    Grid::new_from_chars(vec![vec!['.', '.'], vec!['.', '.']])
}

#[test]
fn test_get_pos_from_index() {
    let width = 3;

    let expected = GridPos { x: 0, y: 0 };
    let actual = get_pos_from_index(0, width);

    assert_eq!(expected, actual);

    let expected = GridPos { x: 2, y: 0 };
    let actual = get_pos_from_index(2, width);

    assert_eq!(expected, actual);

    let expected = GridPos { x: 2, y: 1 };
    let actual = get_pos_from_index(5, width);

    assert_eq!(expected, actual);
}

#[test]
fn testget_cell_at_pos() {
    let grid = Grid::new_from_str(
        r#"
                .c.
                r.i
            "#,
    );

    assert_eq!(".", grid.get_cell_at_pos(&gp(0, 1)).unwrap().to_str());
    assert_eq!("c", grid.get_cell_at_pos(&gp(1, 1)).unwrap().to_str());
    assert_eq!(".", grid.get_cell_at_pos(&gp(2, 1)).unwrap().to_str());
    assert_eq!("r", grid.get_cell_at_pos(&gp(0, 0)).unwrap().to_str());
    assert_eq!(".", grid.get_cell_at_pos(&gp(1, 0)).unwrap().to_str());
    assert_eq!("i", grid.get_cell_at_pos(&gp(2, 0)).unwrap().to_str());
}

#[test]
fn test_grid_pos_above_some() {
    let grid = new_2x2_grid();
    let starting_grid_pos = GridPos { x: 0, y: 0 };
    let expected = Some(GridPos { x: 0, y: 1 });
    let actual = grid.above(starting_grid_pos);

    assert_eq!(expected, actual);
}

#[test]
fn test_grid_pos_above_none() {
    let grid = new_2x2_grid();
    let starting_grid_pos = GridPos { x: 0, y: 1 };
    let expected = None;
    let actual = grid.above(starting_grid_pos);

    assert_eq!(expected, actual);
}

#[test]
fn test_grid_pos_above_right_some() {
    let grid = new_2x2_grid();
    let starting_grid_pos = GridPos { x: 0, y: 0 };
    let expected = Some(GridPos { x: 1, y: 1 });
    let actual = grid.above_right(starting_grid_pos);

    assert_eq!(expected, actual);
}

#[test]
fn test_grid_pos_above_right_none() {
    let grid = new_2x2_grid();
    let starting_grid_pos = GridPos { x: 1, y: 1 };
    let expected = None;
    let actual = grid.above_right(starting_grid_pos);

    assert_eq!(expected, actual);
}

#[test]
fn test_grid_pos_right_some() {
    let grid = new_2x2_grid();
    let starting_grid_pos = GridPos { x: 0, y: 0 };
    let expected = Some(GridPos { x: 1, y: 0 });
    let actual = grid.right(starting_grid_pos);

    assert_eq!(expected, actual);
}

#[test]
fn test_grid_pos_right_none() {
    let grid = new_2x2_grid();
    let starting_grid_pos = GridPos { x: 1, y: 0 };
    let expected = None;
    let actual = grid.right(starting_grid_pos);

    assert_eq!(expected, actual);
}

#[test]
fn test_grid_pos_below_right_some() {
    let grid = new_2x2_grid();
    let starting_grid_pos = GridPos { x: 0, y: 1 };
    let expected = Some(GridPos { x: 1, y: 0 });
    let actual = grid.below_right(starting_grid_pos);

    assert_eq!(expected, actual);
}

#[test]
fn test_grid_pos_below_right_none() {
    let grid = new_2x2_grid();
    let starting_grid_pos = GridPos { x: 1, y: 0 };
    let expected = None;
    let actual = grid.below_right(starting_grid_pos);

    assert_eq!(expected, actual);
}

#[test]
fn test_grid_pos_below_some() {
    let grid = new_2x2_grid();
    let starting_grid_pos = GridPos { x: 0, y: 1 };
    let expected = Some(GridPos { x: 0, y: 0 });
    let actual = grid.below(starting_grid_pos);

    assert_eq!(expected, actual);
}

#[test]
fn test_grid_pos_below_none() {
    let grid = new_2x2_grid();
    let starting_grid_pos = GridPos { x: 0, y: 0 };
    let expected = None;
    let actual = grid.below(starting_grid_pos);

    assert_eq!(expected, actual);
}

#[test]
fn test_recalculate_active_cells_are_active_1() {
    let chars: Vec<Vec<char>> = vec![
        vec!['.', '∧', '.'],
        vec!['/', '.', '∨'],
    ];
    let expected_active: Vec<Vec<u8>> = vec![
        vec![0, 0, 0],
        vec![0, 0, 0],
    ];
    let mut grid = Grid::new_from_chars(chars);

    // None should be active before recalculation
    let actual_active = grid.as_active_bitmask();
    assert_eq!(expected_active, actual_active);

    grid.recalculate_active_cells();

    let expected_active: Vec<Vec<u8>> = vec![
        vec![0, 1, 0],
        vec![1, 0, 1],
    ];

    // All should be active after recalculation
    let actual_active = grid.as_active_bitmask();
    assert_eq!(expected_active, actual_active);
}

#[test]
fn test_recalculate_active_cells_are_active_2() {
    let chars: Vec<Vec<char>> = vec![
        vec!['.', '.', '.', '∧', '.'],
        vec!['∧', '∧', '/', '.', '\\'],
        vec!['.', '\\', '\\', '/', '∨'],
        vec!['.', '.', '∨', '\\', '∧'],
        vec!['.', '.', '.', '.', '∨'],
    ];
    let expected_active: Vec<Vec<u8>> = vec![
        vec![0, 0, 0, 0, 0],
        vec![0, 0, 0, 0, 0],
        vec![0, 0, 0, 0, 0],
        vec![0, 0, 0, 0, 0],
        vec![0, 0, 0, 0, 0],
    ];
    let mut grid = Grid::new_from_chars(chars);

    // None should be active before recalculation
    let actual_active = grid.as_active_bitmask();
    assert_eq!(expected_active, actual_active);

    grid.recalculate_active_cells();

    let expected_active: Vec<Vec<u8>> = vec![
        vec![0, 0, 0, 1, 0],
        vec![1, 1, 1, 0, 1],
        vec![0, 1, 1, 1, 1],
        vec![0, 0, 1, 1, 1],
        vec![0, 0, 0, 0, 1],
    ];

    // All should be active after recalculation
    let actual_active = grid.as_active_bitmask();
    assert_eq!(expected_active, actual_active);
}

#[test]
fn test_recalculate_active_cells_are_active_3() {
    let grid = r#"
            .rc
            ri.
        "#;
    let expected_active: Vec<Vec<u8>> = vec![
        vec![0, 0, 0],
        vec![0, 0, 0],
    ];
    let mut grid = Grid::new_from_str(grid);

    // None should be active before recalculation
    let actual_active = grid.as_active_bitmask();
    assert_eq!(expected_active, actual_active);

    grid.recalculate_active_cells();

    let expected_active: Vec<Vec<u8>> = vec![
        vec![0, 0, 1],
        vec![1, 1, 0],
    ];

    // Connected cells should be active after recalculation
    let actual_active = grid.as_active_bitmask();
    assert_eq!(expected_active, actual_active);
}

#[test]
fn test_recalculate_active_cells_all_inactive() {
    let chars: Vec<Vec<char>> = vec![
        vec!['/', '.'],
        vec!['.', '/'],
    ];
    let expected_active: Vec<Vec<u8>> = vec![
        vec![0, 0],
        vec![0, 0],
    ];

    let mut grid = Grid::new_from_chars(chars);

    // None should be active before recalculation
    let actual_active = grid.as_active_bitmask();
    assert_eq!(expected_active, actual_active);

    grid.recalculate_active_cells();

    // None should be active after recalculation either
    let actual_active = grid.as_active_bitmask();
    assert_eq!(expected_active, actual_active);
}

#[test]
fn test_pop_top_row() {
    let mut grid = Grid::new_from_str(
        r#"
        .cc
        .l.
        ..l
        "#,
    );

    let expected_popped_row = vec![
        Cell::Empty,
        Cell::Filled(LineFragment::from_str("c")),
        Cell::Filled(LineFragment::from_str("c")),
    ];
    let actual_popped_row = grid.pop_top_row();

    assert_eq!(expected_popped_row, actual_popped_row);
}
