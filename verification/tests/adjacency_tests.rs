use gunpey_lib::adjacency::{are_line_fragments_connecting, Adjacency};
use gunpey_lib::line_fragment::LineFragment;

#[test]
fn test_should_not_connect_1() {
    let a = LineFragment::from_char(&'/');
    let b = LineFragment::from_char(&'/');
    let adjacency = Adjacency::Right;

    assert_eq!(false, are_line_fragments_connecting(&a, adjacency, &b));
}

#[test]
fn test_should_not_connect_2() {
    let a = LineFragment::from_char(&'/');
    let b = LineFragment::from_char(&'/');
    let adjacency = Adjacency::BelowRight;

    assert_eq!(false, are_line_fragments_connecting(&a, adjacency, &b));
}

#[test]
fn test_should_not_connect_3() {
    let a = LineFragment::from_char(&'/');
    let b = LineFragment::from_char(&'/');
    let adjacency = Adjacency::Below;

    assert_eq!(false, are_line_fragments_connecting(&a, adjacency, &b));
}

#[test]
fn test_should_connect_1() {
    let a = LineFragment::from_char(&'/');
    let b = LineFragment::from_char(&'/');
    let adjacency = Adjacency::BelowLeft;

    assert_eq!(true, are_line_fragments_connecting(&a, adjacency, &b));
}

#[test]
fn test_should_connect_2() {
    let a = LineFragment::from_char(&'∧');
    let b = LineFragment::from_char(&'∨');
    let adjacency = Adjacency::Below;

    assert_eq!(true, are_line_fragments_connecting(&a, adjacency, &b));
}

#[test]
fn test_should_connect_3() {
    let a = LineFragment::from_char(&'∧');
    let b = LineFragment::from_char(&'∧');
    let adjacency = Adjacency::Left;

    assert_eq!(true, are_line_fragments_connecting(&a, adjacency, &b));
}

#[test]
fn test_should_connect_4() {
    let a = LineFragment::from_char(&'∨');
    let b = LineFragment::from_char(&'∨');
    let adjacency = Adjacency::Right;

    assert_eq!(true, are_line_fragments_connecting(&a, adjacency, &b));
}
