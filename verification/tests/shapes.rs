use image::Rgb;
use labyrinth::shapes::{Direction, Line, Point};
use labyrinth::{GRID_SIZE, MULTIPLIER, OFFSET};

#[test]
fn configuration_constants() {
    assert_eq!(GRID_SIZE, 10);
    assert_eq!(MULTIPLIER, 25);
    assert_eq!(OFFSET, 50);
}

#[test]
fn direction_idx_is_stable() {
    assert_eq!(Direction::Up.idx(), 0);
    assert_eq!(Direction::Down.idx(), 1);
    assert_eq!(Direction::Left.idx(), 2);
    assert_eq!(Direction::Right.idx(), 3);
}

#[test]
fn direction_relative_deltas() {
    assert_eq!(Direction::Up.relative(), (0, -1));
    assert_eq!(Direction::Down.relative(), (0, 1));
    assert_eq!(Direction::Left.relative(), (-1, 0));
    assert_eq!(Direction::Right.relative(), (1, 0));
}

#[test]
fn direction_iter_lists_all_four_in_order() {
    let all = Direction::iter();
    assert_eq!(all.len(), 4);
    assert_eq!(all, [Direction::Up, Direction::Down, Direction::Left, Direction::Right]);
}

#[test]
fn direction_iter_agrees_with_idx() {
    let all = Direction::iter();
    for direction in all {
        assert_eq!(all[direction.idx()], direction);
    }
}

#[test]
fn opposite_directions_cancel() {
    let pairs = [(Direction::Up, Direction::Down), (Direction::Left, Direction::Right)];
    for (one, other) in pairs {
        let (ax, ay) = one.relative();
        let (bx, by) = other.relative();
        assert_eq!((ax + bx, ay + by), (0, 0));
    }
}

#[test]
fn point_new_keeps_coordinates() {
    assert_eq!(Point::new(3, 7), Point(3, 7));
    assert_eq!(Point::new(0, 0), Point(0, 0));
    assert_eq!(Point::new(2147483647, 1), Point(i32::MAX, 1));
}

#[test]
fn point_new_truncates_large_coordinates() {
    assert_eq!(Point::new(usize::MAX, 0), Point(-1, 0));
    assert_eq!(Point::new(0, 2147483648), Point(0, i32::MIN));
}

#[test]
fn line_new_places_a_stub_on_the_edge() {
    let right = Line::new(Point(0, 0), Direction::Right, None);
    assert_eq!(right.start, Point(75, 56));
    assert_eq!(right.end, Point(75, 69));
    let down = Line::new(Point(3, 4), Direction::Down, None);
    assert_eq!(down.start, Point(3 * 25 + 50 + 6, 5 * 25 + 50));
    assert_eq!(down.end, Point(4 * 25 + 50 - 6, 5 * 25 + 50));
    let left = Line::new(Point(0, 0), Direction::Left, None);
    assert_eq!((left.start, left.end), (Point(50, 56), Point(50, 69)));
    let up = Line::new(Point(0, 0), Direction::Up, None);
    assert_eq!((up.start, up.end), (Point(56, 50), Point(69, 50)));
}

#[test]
fn a_wall_has_two_different_end_points() {
    for y in 0..4 {
        for x in 0..4 {
            for direction in Direction::iter() {
                let wall = Line::new(Point(x, y), direction, None);
                assert_ne!(wall.start, wall.end);
                let length = (wall.end.0 - wall.start.0) + (wall.end.1 - wall.start.1);
                assert_eq!(length, 13);
            }
        }
    }
}

#[test]
fn a_wall_is_centred_on_the_middle_of_its_edge() {
    let (x, y) = (2, 3);
    let (left, top) = (x * 25 + 50, y * 25 + 50);
    let (right, bottom) = (left + 25, top + 25);
    let corners = [
        (Direction::Up, (left, top), (right, top)),
        (Direction::Down, (left, bottom), (right, bottom)),
        (Direction::Left, (left, top), (left, bottom)),
        (Direction::Right, (right, top), (right, bottom)),
    ];
    for (direction, from, to) in corners {
        let wall = Line::new(Point(x, y), direction, None);
        assert_eq!(wall.start.0 + wall.end.0, from.0 + to.0);
        assert_eq!(wall.start.1 + wall.end.1, from.1 + to.1);
        assert!(from.0 <= wall.start.0 && wall.end.0 <= to.0);
        assert!(from.1 <= wall.start.1 && wall.end.1 <= to.1);
    }
}

#[test]
fn a_wall_is_placed_the_same_from_either_side() {
    for y in 0..5 {
        for x in 0..5 {
            let here = Point(x, y);
            assert_eq!(
                Line::new(here, Direction::Down, None),
                Line::new(Point(x, y + 1), Direction::Up, None)
            );
            assert_eq!(
                Line::new(here, Direction::Right, None),
                Line::new(Point(x + 1, y), Direction::Left, None)
            );
        }
    }
}

#[test]
fn different_walls_lie_at_different_places() {
    let size = 4;
    let mut walls: Vec<(Point, Direction, Line)> = Vec::new();
    for y in 0..size {
        for x in 0..size {
            for direction in Direction::iter() {
                walls.push((Point(x, y), direction, Line::new(Point(x, y), direction, None)));
            }
        }
    }
    for (here, side, wall) in walls.iter() {
        for (there, facing, other) in walls.iter() {
            let (dx, dy) = side.relative();
            let (bx, by) = facing.relative();
            let across = there.0 as isize == here.0 as isize + dx
                && there.1 as isize == here.1 as isize + dy
                && (dx + bx, dy + by) == (0, 0);
            let same = (here, side) == (there, facing);
            assert_eq!(wall == other, same || across);
        }
    }
    let down = Line::new(Point(1, 0), Direction::Down, None);
    let right = Line::new(Point(0, 1), Direction::Right, None);
    assert_ne!((down.start, down.end), (right.start, right.end));
}

#[test]
fn line_new_wraps_in_render_space() {
    let far = Line::new(Point(i32::MAX, 0), Direction::Right, None);
    let exact: i64 = (i32::MAX as i64 + 1) * 25 + 50;
    assert_eq!(far.start, Point(exact as i32, 56));
    assert_eq!(far.end, Point(exact as i32, 69));
}

#[test]
fn line_new_stands_and_is_black_by_default() {
    let line = Line::new(Point(1, 1), Direction::Up, None);
    assert!(line.shown);
    assert_eq!(line.color, Rgb([0u8, 0u8, 0u8]));
}

#[test]
fn line_new_keeps_a_given_colour() {
    let line = Line::new(Point(1, 1), Direction::Up, Some(Rgb([10u8, 20u8, 30u8])));
    assert_eq!(line.color, Rgb([10u8, 20u8, 30u8]));
    assert!(line.shown);
}

#[test]
fn line_conceal_is_one_way_and_idempotent() {
    let mut line = Line::new(Point(2, 2), Direction::Left, None);
    let made = line;
    line.conceal();
    assert!(!line.shown);
    assert_eq!((line.start, line.end, line.color), (made.start, made.end, made.color));
    line.conceal();
    assert!(!line.shown);
}

#[test]
fn line_draw_gives_a_stroke_only_while_the_wall_stands() {
    let mut line = Line::new(Point(0, 1), Direction::Right, Some(Rgb([1u8, 2u8, 3u8])));
    assert_eq!(line.draw(), Some((Point(75, 81), Point(75, 94), Rgb([1u8, 2u8, 3u8]))));
    line.conceal();
    assert_eq!(line.draw(), None);
}
