use gunpey_lib::adjacency::Adjacency;
use gunpey_lib::grid_pos::GridPos;

#[test]
fn test_is_same_adjacency() {
    let pos_a = GridPos::new(0, 0);
    let pos_b = pos_a.clone();
    let actual = pos_a.adjacency(&pos_b);

    assert_eq!(Adjacency::Same, actual);
}

#[test]
fn test_is_above_adjacency() {
    let pos_a = GridPos::new(0, 0);
    let pos_b = GridPos::new(0, 1);
    let actual = pos_a.adjacency(&pos_b);

    assert_eq!(Adjacency::Above, actual);
}

#[test]
fn test_is_below_adjacency() {
    let pos_a = GridPos::new(0, 1);
    let pos_b = GridPos::new(0, 0);
    let actual = pos_a.adjacency(&pos_b);

    assert_eq!(Adjacency::Below, actual);
}

#[test]
fn test_is_above_left_adjacency() {
    let pos_a = GridPos::new(1, 0);
    let pos_b = GridPos::new(0, 1);
    let actual = pos_a.adjacency(&pos_b);

    assert_eq!(Adjacency::AboveLeft, actual);
}

#[test]
fn test_is_below_left_adjacency() {
    let pos_a = GridPos::new(1, 1);
    let pos_b = GridPos::new(0, 0);
    let actual = pos_a.adjacency(&pos_b);

    assert_eq!(Adjacency::BelowLeft, actual);
}

#[test]
fn test_is_left_adjacency() {
    let pos_a = GridPos::new(1, 0);
    let pos_b = GridPos::new(0, 0);
    let actual = pos_a.adjacency(&pos_b);

    assert_eq!(Adjacency::Left, actual);
}

#[test]
fn test_is_above_right_adjacency() {
    let pos_a = GridPos::new(0, 0);
    let pos_b = GridPos::new(1, 1);
    let actual = pos_a.adjacency(&pos_b);

    assert_eq!(Adjacency::AboveRight, actual);
}

#[test]
fn test_is_below_right_adjacency() {
    let pos_a = GridPos::new(0, 1);
    let pos_b = GridPos::new(1, 0);
    let actual = pos_a.adjacency(&pos_b);

    assert_eq!(Adjacency::BelowRight, actual);
}

#[test]
fn test_is_right_adjacency() {
    let pos_a = GridPos::new(0, 0);
    let pos_b = GridPos::new(1, 0);
    let actual = pos_a.adjacency(&pos_b);

    assert_eq!(Adjacency::Right, actual);
}

#[test]
fn test_is_not_adjacent() {
    let pos_a = GridPos::new(0, 2);
    let pos_b = GridPos::new(2, 0);
    let actual = pos_a.adjacency(&pos_b);

    assert_eq!(Adjacency::NotAdjacent, actual);
}
