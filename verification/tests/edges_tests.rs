use gunpey_lib::grid::Grid;
use gunpey_lib::grid_pos::GridPos;

#[test]
fn test_edges_should_be_detected_1() {
    let chars: Vec<Vec<char>> = vec![
        vec!['/', '/'],
        vec!['/', '/'],
    ];
    let grid = Grid::new_from_chars(chars);
    let mut expected: Vec<(GridPos, GridPos)> = vec![
        (GridPos::new(0, 0), GridPos::new(1, 1)),
        (GridPos::new(1, 1), GridPos::new(0, 0)),
    ];
    expected.sort();

    let mut actual = grid.edges();
    actual.sort();

    assert_eq!(expected, actual)
}

#[test]
fn test_edges_should_be_detected_2() {
    let chars: Vec<Vec<char>> = vec![
        vec!['∨', '∨'],
        vec!['∧', '∧'],
    ];
    let grid = Grid::new_from_chars(chars);
    let expected: Vec<(GridPos, GridPos)> = vec![
        (GridPos::new(0, 0), GridPos::new(1, 0)),
        (GridPos::new(1, 0), GridPos::new(0, 0)),
        (GridPos::new(0, 1), GridPos::new(1, 1)),
        (GridPos::new(1, 1), GridPos::new(0, 1)),
    ];
    let actual = grid.edges();

    assert_eq!(expected, actual)
}

#[test]
fn test_edges_should_not_be_detected() {
    let chars: Vec<Vec<char>> = vec![
        vec!['∨', '/'],
        vec!['∧', '.'],
    ];
    let grid = Grid::new_from_chars(chars);
    let expected: Vec<(GridPos, GridPos)> = vec![];
    let actual = grid.edges();

    assert_eq!(expected, actual)
}
