use image::Rgb;
use labyrinth::grid::{ConfigError, Field, Labyrinth};
use labyrinth::shapes::{Direction, Line, Point};

fn build(size: usize) -> Labyrinth {
    match Labyrinth::new(size) {
        Ok(labyrinth) => labyrinth,
        Err(error) => panic!("a grid of side {} was refused: {:?}", size, error),
    }
}

#[test]
fn new_rejects_an_empty_grid() {
    assert_eq!(Labyrinth::new(0).err(), Some(ConfigError::Empty));
}

#[test]
fn new_rejects_a_grid_that_cannot_be_placed() {
    assert_eq!(Labyrinth::new(usize::MAX).err(), Some(ConfigError::TooLarge));
    assert_eq!(Labyrinth::new(85_899_344).err(), Some(ConfigError::TooLarge));
}

#[test]
fn new_accepts_positive_sizes() {
    for size in 1..=12usize {
        assert!(Labyrinth::new(size).is_ok());
    }
}

#[test]
fn single_cell_grid() {
    let labyrinth = build(1);
    assert_eq!(labyrinth.size(), 1);
    assert_eq!(labyrinth.lines().len(), 4);
    let field = labyrinth.field(0, 0);
    assert_eq!(field.point, Point(0, 0));
    assert_eq!(field.borders, [0, 1, 2, 3]);
    for direction in Direction::iter() {
        assert!(field.move_to(&labyrinth, &direction).is_none());
    }
}

#[test]
fn two_by_two_arena_layout() {
    let labyrinth = build(2);
    assert_eq!(labyrinth.lines().len(), 12);
    assert_eq!(labyrinth.field(0, 0).borders, [0, 1, 2, 3]);
    assert_eq!(labyrinth.field(1, 0).borders, [4, 5, 3, 6]);
    assert_eq!(labyrinth.field(0, 1).borders, [1, 7, 8, 9]);
    assert_eq!(labyrinth.field(1, 1).borders, [5, 10, 9, 11]);
}

#[test]
fn cells_lie_row_by_row() {
    let size = 4;
    let labyrinth = build(size);
    for y in 0..size {
        for x in 0..size {
            let field = labyrinth.field(x, y);
            assert_eq!(field.point, Point(x as i32, y as i32));
            assert_eq!(labyrinth.position(field), y * size + x);
            assert_eq!(labyrinth.cell(y * size + x), field);
        }
    }
}

#[test]
fn wall_count_is_twice_side_times_side_plus_one() {
    for size in 1..=9usize {
        let labyrinth = build(size);
        assert_eq!(labyrinth.lines().len(), 2 * size * (size + 1));
    }
}

#[test]
fn every_wall_belongs_to_some_cell() {
    let size = 5;
    let labyrinth = build(size);
    let mut used = vec![0usize; labyrinth.lines().len()];
    for index in 0..size * size {
        for direction in Direction::iter() {
            let wall = labyrinth.cell(index).borders[direction.idx()];
            assert!(wall < labyrinth.lines().len());
            used[wall] += 1;
        }
    }
    let interior = used.iter().filter(|count| **count == 2).count();
    let edge = used.iter().filter(|count| **count == 1).count();
    assert_eq!(interior, 2 * size * (size - 1));
    assert_eq!(edge, 4 * size);
    assert_eq!(interior + edge, labyrinth.lines().len());
}

#[test]
fn neighbours_share_the_wall_between_them() {
    let size = 6;
    let labyrinth = build(size);
    for y in 0..size {
        for x in 0..size {
            let field = labyrinth.field(x, y);
            if x + 1 < size {
                let right = labyrinth.field(x + 1, y);
                assert_eq!(
                    field.borders[Direction::Right.idx()],
                    right.borders[Direction::Left.idx()]
                );
            }
            if y + 1 < size {
                let below = labyrinth.field(x, y + 1);
                assert_eq!(
                    field.borders[Direction::Down.idx()],
                    below.borders[Direction::Up.idx()]
                );
            }
        }
    }
}

#[test]
fn concealing_a_shared_wall_shows_from_both_sides() {
    let mut labyrinth = build(3);
    let here = labyrinth.position(labyrinth.field(1, 1));
    let right = labyrinth.position(labyrinth.field(2, 1));
    assert!(labyrinth.is_shown(here, &Direction::Right));
    assert!(labyrinth.is_shown(right, &Direction::Left));
    labyrinth.conceal(here, &Direction::Right);
    assert!(!labyrinth.is_shown(here, &Direction::Right));
    assert!(!labyrinth.is_shown(right, &Direction::Left));
    let hidden = labyrinth.lines().iter().filter(|line| !line.shown).count();
    assert_eq!(hidden, 1);
    labyrinth.conceal(right, &Direction::Left);
    let hidden = labyrinth.lines().iter().filter(|line| !line.shown).count();
    assert_eq!(hidden, 1);
}

#[test]
fn concealing_changes_no_other_side() {
    let size = 3;
    let mut labyrinth = build(size);
    let here = labyrinth.position(labyrinth.field(1, 1));
    labyrinth.conceal(here, &Direction::Up);
    for index in 0..size * size {
        for direction in Direction::iter() {
            let touched = (index == here && direction == Direction::Up)
                || (index == here - size && direction == Direction::Down);
            assert_eq!(labyrinth.is_shown(index, &direction), !touched);
        }
    }
}

#[test]
fn a_new_grid_is_fully_walled() {
    let mut labyrinth = build(4);
    assert!(labyrinth.is_walled());
    assert!(labyrinth.lines().iter().all(|line| line.shown));
    labyrinth.conceal(5, &Direction::Down);
    assert!(!labyrinth.is_walled());
}

#[test]
fn walls_are_placed_on_every_side_of_every_cell() {
    let size = 3;
    let labyrinth = build(size);
    let lines = labyrinth.lines();
    for y in 0..size {
        for x in 0..size {
            let field = labyrinth.field(x, y);
            for direction in Direction::iter() {
                let wall = lines[field.borders[direction.idx()]];
                assert_eq!(wall, Line::new(field.point, direction, None));
            }
        }
    }
    assert_eq!((lines[0].start, lines[0].end), (Point(56, 50), Point(69, 50)));
    assert_eq!((lines[3].start, lines[3].end), (Point(75, 56), Point(75, 69)));
}

#[test]
fn no_two_walls_of_a_grid_are_alike() {
    let labyrinth = build(5);
    let lines = labyrinth.lines();
    for (i, one) in lines.iter().enumerate() {
        assert_ne!(one.start, one.end);
        for other in lines.iter().skip(i + 1) {
            assert_ne!((one.start, one.end), (other.start, other.end));
        }
    }
}

#[test]
fn move_to_finds_the_neighbour() {
    let labyrinth = build(3);
    let field = labyrinth.field(1, 1);
    assert_eq!(field.move_to(&labyrinth, &Direction::Up).map(|f| f.point), Some(Point(1, 0)));
    assert_eq!(field.move_to(&labyrinth, &Direction::Down).map(|f| f.point), Some(Point(1, 2)));
    assert_eq!(field.move_to(&labyrinth, &Direction::Left).map(|f| f.point), Some(Point(0, 1)));
    assert_eq!(field.move_to(&labyrinth, &Direction::Right).map(|f| f.point), Some(Point(2, 1)));
}

#[test]
fn move_to_stops_at_the_edge() {
    let labyrinth = build(3);
    let corner = labyrinth.field(0, 0);
    assert!(corner.move_to(&labyrinth, &Direction::Up).is_none());
    assert!(corner.move_to(&labyrinth, &Direction::Left).is_none());
    assert!(corner.move_to(&labyrinth, &Direction::Down).is_some());
    assert!(corner.move_to(&labyrinth, &Direction::Right).is_some());
    let last = labyrinth.field(2, 2);
    assert!(last.move_to(&labyrinth, &Direction::Down).is_none());
    assert!(last.move_to(&labyrinth, &Direction::Right).is_none());
    assert_eq!(last.move_to(&labyrinth, &Direction::Up), Some(labyrinth.field(2, 1)));
    assert_eq!(last.move_to(&labyrinth, &Direction::Left), Some(labyrinth.field(1, 2)));
}

#[test]
fn move_to_from_a_field_outside_the_grid() {
    let labyrinth = build(2);
    let outside = Field::new(Point(-1, 0), [0, 0, 0, 0]);
    assert_eq!(outside.move_to(&labyrinth, &Direction::Right), Some(labyrinth.field(0, 0)));
    assert!(outside.move_to(&labyrinth, &Direction::Left).is_none());
    let far = Field::new(Point(i32::MIN, i32::MAX), [0, 0, 0, 0]);
    assert!(far.move_to(&labyrinth, &Direction::Left).is_none());
    assert!(far.move_to(&labyrinth, &Direction::Down).is_none());
}

#[test]
fn field_new_holds_what_it_is_given() {
    let field = Field::new(Point(4, 5), [9, 8, 7, 6]);
    assert_eq!(field.point, Point(4, 5));
    assert_eq!(field.borders, [9, 8, 7, 6]);
}

#[test]
fn draw_gives_one_stroke_for_each_standing_wall() {
    let mut labyrinth = build(2);
    let strokes = labyrinth.draw();
    assert_eq!(strokes.len(), 12);
    for (stroke, line) in strokes.iter().zip(labyrinth.lines().iter()) {
        assert_eq!(*stroke, (line.start, line.end, line.color));
    }
    assert_eq!(strokes[0], (Point(56, 50), Point(69, 50), Rgb([0u8, 0u8, 0u8])));
    labyrinth.conceal(0, &Direction::Right);
    let strokes = labyrinth.draw();
    assert_eq!(strokes.len(), 11);
    let expected: Vec<(Point, Point, Rgb<u8>)> = labyrinth
        .lines()
        .iter()
        .filter(|line| line.shown)
        .map(|line| (line.start, line.end, line.color))
        .collect();
    assert_eq!(strokes, expected);
}

#[test]
fn draw_skips_every_passage() {
    let size = 2;
    let mut labyrinth = build(size);
    for index in 0..size * size {
        for direction in Direction::iter() {
            labyrinth.conceal(index, &direction);
        }
    }
    assert!(labyrinth.draw().is_empty());
}
