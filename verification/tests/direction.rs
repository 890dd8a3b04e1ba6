use game2048::game::Direction;
use game2048::util::{get_direction, Point};

#[test]
fn horizontal_drag_wins_when_larger() {
    let last = Point::from_data(10, 3);
    let current = Point::from_data(0, 0);
    assert_eq!(get_direction(&last, &current), Direction::Left);

    let last = Point::from_data(0, 3);
    let current = Point::from_data(10, 0);
    assert_eq!(get_direction(&last, &current), Direction::Right);
}

#[test]
fn vertical_drag_wins_when_larger() {
    let last = Point::from_data(3, 10);
    let current = Point::from_data(0, 0);
    assert_eq!(get_direction(&last, &current), Direction::Up);

    let last = Point::from_data(3, 0);
    let current = Point::from_data(0, 10);
    assert_eq!(get_direction(&last, &current), Direction::Down);
}

#[test]
fn tie_goes_to_the_vertical_axis() {
    let last = Point::from_data(5, 5);
    let current = Point::from_data(0, 0);
    assert_eq!(get_direction(&last, &current), Direction::Up);

    let last = Point::from_data(0, 0);
    let current = Point::from_data(5, 5);
    assert_eq!(get_direction(&last, &current), Direction::Down);
}

#[test]
fn set_replaces_the_stored_point() {
    let mut last = Point::from_data(0, 0);
    last.set(20, 1);
    let current = Point::from_data(0, 0);
    assert_eq!(get_direction(&last, &current), Direction::Left);
}

#[test]
fn negative_coordinates_work() {
    let last = Point::from_data(-10, 0);
    let current = Point::from_data(0, 0);
    assert_eq!(get_direction(&last, &current), Direction::Right);
}
