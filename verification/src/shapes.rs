//! Geometry: directions, points and wall segments.
use vstd::prelude::*;
use image::Rgb;
use crate::{MULTIPLIER, OFFSET};

verus! {

/// `image::Rgb`, the colour of a wall. The verifier reads the type as the
/// `image` crate defines it, a public array of three channels; nothing
/// more is assumed of it.
#[verifier::external_type_specification]
#[verifier::reject_recursive_types(T)]
pub struct ExRgb<T>(Rgb<T>);

/// One of the four sides of a cell.
#[derive(Clone, Copy, Debug, PartialEq, Eq, Hash, Structural)]
pub enum Direction {
    Up,
    Down,
    Left,
    Right,
}

/// A grid or render-space coordinate, `(x, y)`.
#[derive(Clone, Copy, Debug, PartialEq, Eq, Hash, Structural)]
pub struct Point(pub i32, pub i32);

/// A wall between two grid positions, or between one and the outside.
#[derive(Clone, Copy, Debug, PartialEq, Eq, Hash)]
pub struct Line {
    pub start: Point,
    pub end: Point,
    /// `true` while the wall stands, `false` once it is a passage.
    pub shown: bool,
    pub color: Rgb<u8>,
}

impl Direction {
    /// Horizontal step of one move in this direction.
    pub open spec fn dx(self) -> int {
        match self {
            Direction::Left => -1,
            Direction::Right => 1,
            _ => 0,
        }
    }

    /// Vertical step of one move in this direction; `y` grows downwards.
    pub open spec fn dy(self) -> int {
        match self {
            Direction::Up => -1,
            Direction::Down => 1,
            _ => 0,
        }
    }

    /// The direction that undoes a move in this one.
    pub open spec fn opposite(self) -> Direction {
        match self {
            Direction::Up => Direction::Down,
            Direction::Down => Direction::Up,
            Direction::Left => Direction::Right,
            Direction::Right => Direction::Left,
        }
    }

    /// Slot of this direction in a cell's array of borders.
    pub open spec fn spec_idx(self) -> int {
        match self {
            Direction::Up => 0,
            Direction::Down => 1,
            Direction::Left => 2,
            Direction::Right => 3,
        }
    }

    /// The four directions in their fixed order.
    pub open spec fn all() -> Seq<Direction> {
        seq![Direction::Up, Direction::Down, Direction::Left, Direction::Right]
    }

    /// The coordinate delta `(dx, dy)` of one move in this direction.
    pub fn relative(&self) -> (delta: (isize, isize))
        ensures
            delta.0 == self.dx(),
            delta.1 == self.dy(),
    {
        match self {
            Direction::Up => (0, -1),
            Direction::Down => (0, 1),
            Direction::Left => (-1, 0),
            Direction::Right => (1, 0),
        }
    }

    /// All four directions, each standing at its own `idx`.
    pub fn iter() -> (all: [Direction; 4])
        ensures
            all@ == Direction::all(),
            forall|d: Direction| #[trigger] all@[d.spec_idx()] == d,
    {
        let all = [Direction::Up, Direction::Down, Direction::Left, Direction::Right];
        proof {
            assert forall|d: Direction| #[trigger] all@[d.spec_idx()] == d by {
                match d {
                    Direction::Up => {},
                    Direction::Down => {},
                    Direction::Left => {},
                    Direction::Right => {},
                }
            }
        }
        all
    }

    /// Slot of this direction in a cell's array of borders.
    pub fn idx(&self) -> (i: usize)
        ensures
            i == self.spec_idx(),
            i < 4,
    {
        match self {
            Direction::Up => 0,
            Direction::Down => 1,
            Direction::Left => 2,
            Direction::Right => 3,
        }
    }
}

impl Point {
    /// The point `(x, y)`. Coordinates beyond `i32::MAX` are truncated to
    /// their low 32 bits.
    pub fn new(x: usize, y: usize) -> (p: Point)
        ensures
            p == Point(x as i32, y as i32),
            x <= i32::MAX ==> p.0 == x,
            y <= i32::MAX ==> p.1 == y,
    {
        Point(x as i32, y as i32)
    }
}

impl Line {
    /// Render-space coordinate of grid line `k`: where column `k` begins
    /// from the left, or row `k` from the top.
    pub open spec fn rule(k: int) -> int {
        k * MULTIPLIER + OFFSET
    }

    /// How far from either corner of its edge a wall begins: a quarter of
    /// the edge.
    pub open spec fn inset() -> int {
        MULTIPLIER as int / 4
    }

    /// The two corners between which the `direction` side of the cell at
    /// `point` runs, the left or upper one first, as `(x, y)` pairs.
    pub open spec fn edge(point: Point, direction: Direction) -> ((int, int), (int, int)) {
        let (left, top) = (Line::rule(point.0 as int), Line::rule(point.1 as int));
        let (right, bottom) = (Line::rule(point.0 + 1), Line::rule(point.1 + 1));
        match direction {
            Direction::Up => ((left, top), (right, top)),
            Direction::Down => ((left, bottom), (right, bottom)),
            Direction::Left => ((left, top), (left, bottom)),
            Direction::Right => ((right, top), (right, bottom)),
        }
    }

    /// Where the wall on the `direction` side of the cell at `point`
    /// begins and ends: on that edge, an inset away from each corner.
    pub open spec fn ends(point: Point, direction: Direction) -> ((int, int), (int, int)) {
        let (from, to) = Line::edge(point, direction);
        match direction {
            Direction::Up | Direction::Down => (
                (from.0 + Line::inset(), from.1),
                (to.0 - Line::inset(), to.1),
            ),
            Direction::Left | Direction::Right => (
                (from.0, from.1 + Line::inset()),
                (to.0, to.1 - Line::inset()),
            ),
        }
    }

    /// The wall that `Line::new` builds: a standing stub in the middle of
    /// the `direction` side of the cell at `point`. Coordinates that do not
    /// fit an `i32` are truncated to their low 32 bits.
    pub open spec fn spec_new(point: Point, direction: Direction, color: Option<Rgb<u8>>) -> Line {
        let (from, to) = Line::ends(point, direction);
        Line {
            start: Point(from.0 as i32, from.1 as i32),
            end: Point(to.0 as i32, to.1 as i32),
            shown: true,
            color: match color {
                Some(c) => c,
                None => Rgb([0u8, 0u8, 0u8]),
            },
        }
    }

    /// A standing wall on the `direction` side of the cell at `point`,
    /// black unless a colour is given: a stub on the edge that the cell
    /// has on that side, centred on the edge's midpoint.
    pub fn new(point: Point, direction: Direction, color: Option<Rgb<u8>>) -> (line: Line)
        ensures
            line == Line::spec_new(point, direction, color),
    {
        let color = match color {
            Some(c) => c,
            None => Rgb([0u8, 0u8, 0u8]),
        };
        let inset: i64 = (MULTIPLIER as i64) / 4;
        let left: i64 = (point.0 as i64) * (MULTIPLIER as i64) + (OFFSET as i64);
        let top: i64 = (point.1 as i64) * (MULTIPLIER as i64) + (OFFSET as i64);
        let right: i64 = left + (MULTIPLIER as i64);
        let bottom: i64 = top + (MULTIPLIER as i64);
        let (start, end) = match direction {
            Direction::Up => (
                Point((left + inset) as i32, top as i32),
                Point((right - inset) as i32, top as i32),
            ),
            Direction::Down => (
                Point((left + inset) as i32, bottom as i32),
                Point((right - inset) as i32, bottom as i32),
            ),
            Direction::Left => (
                Point(left as i32, (top + inset) as i32),
                Point(left as i32, (bottom - inset) as i32),
            ),
            Direction::Right => (
                Point(right as i32, (top + inset) as i32),
                Point(right as i32, (bottom - inset) as i32),
            ),
        };
        Line { start, end, shown: true, color }
    }

    /// Turns the wall into a passage. A passage stays a passage.
    pub fn conceal(&mut self)
        ensures
            *final(self) == (Line { shown: false, ..*old(self) }),
    {
        self.shown = false;
    }

    /// What there is to draw of this wall: its end points and colour while
    /// it stands, nothing once it is a passage.
    pub fn draw(&self) -> (stroke: Option<(Point, Point, Rgb<u8>)>)
        ensures
            stroke == (if self.shown {
                Some((self.start, self.end, self.color))
            } else {
                None
            }),
    {
        if self.shown {
            Some((self.start, self.end, self.color))
        } else {
            None
        }
    }
}

} // verus!
