use gunpey_lib::grid_iterator_2d::{new_xy_iter, GridIterDirectionX, GridIterDirectionY};

#[test]
fn test_left_to_right_top_to_bottom() {
    let width = 2;
    let height = 2;
    let direction_x = GridIterDirectionX::LeftToRight;
    let direction_y = GridIterDirectionY::TopToBottom;
    let iterator = &mut new_xy_iter(width, height, direction_x, direction_y).into_iter();

    assert_eq!(iterator.next(), Some((0, 1)));
    assert_eq!(iterator.next(), Some((1, 1)));
    assert_eq!(iterator.next(), Some((0, 0)));
    assert_eq!(iterator.next(), Some((1, 0)));
    assert_eq!(iterator.next(), None);
}

#[test]
fn test_left_to_right_bottom_to_top() {
    let width = 2;
    let height = 2;
    let direction_x = GridIterDirectionX::LeftToRight;
    let direction_y = GridIterDirectionY::BottomToTop;
    let iterator = &mut new_xy_iter(width, height, direction_x, direction_y).into_iter();

    assert_eq!(iterator.next(), Some((0, 0)));
    assert_eq!(iterator.next(), Some((1, 0)));
    assert_eq!(iterator.next(), Some((0, 1)));
    assert_eq!(iterator.next(), Some((1, 1)));
    assert_eq!(iterator.next(), None);
}

#[test]
fn test_right_to_left_top_to_bottom() {
    let width = 2;
    let height = 2;
    let direction_x = GridIterDirectionX::RightToLeft;
    let direction_y = GridIterDirectionY::TopToBottom;
    let iterator = &mut new_xy_iter(width, height, direction_x, direction_y).into_iter();

    assert_eq!(iterator.next(), Some((1, 1)));
    assert_eq!(iterator.next(), Some((0, 1)));
    assert_eq!(iterator.next(), Some((1, 0)));
    assert_eq!(iterator.next(), Some((0, 0)));
    assert_eq!(iterator.next(), None);
}

#[test]
fn test_right_to_left_bottom_to_top() {
    let width = 2;
    let height = 2;
    let direction_x = GridIterDirectionX::RightToLeft;
    let direction_y = GridIterDirectionY::BottomToTop;
    let iterator = &mut new_xy_iter(width, height, direction_x, direction_y).into_iter();

    assert_eq!(iterator.next(), Some((1, 0)));
    assert_eq!(iterator.next(), Some((0, 0)));
    assert_eq!(iterator.next(), Some((1, 1)));
    assert_eq!(iterator.next(), Some((0, 1)));
    assert_eq!(iterator.next(), None);
}
