//! The mathematics of the grid: how cells, their neighbours and their
//! walls relate, and what it means for a grid to be well laid out.
use vstd::prelude::*;
use crate::grid::Field;
use image::Rgb;
use crate::shapes::{Direction, Line, Point};
use crate::{MULTIPLIER, OFFSET};

verus! {

/// The mathematical content of a [`Labyrinth`].
pub struct Grid {
    pub side: int,
    pub cells: Seq<Field>,
    pub segments: Seq<Line>,
}

impl Grid {
    /// Side lengths whose walls can be counted in a `usize` and placed in
    /// `i32` render coordinates.
    pub open spec fn fits(side: int) -> bool {
        &&& side * MULTIPLIER + OFFSET <= i32::MAX
        &&& 2 * side * (side + 1) <= usize::MAX
    }

    pub open spec fn is_cell(self, c: int) -> bool {
        0 <= c < self.cells.len()
    }

    /// Index of the cell at `(x, y)`.
    pub open spec fn index(self, x: int, y: int) -> int {
        y * self.side + x
    }

    pub open spec fn in_bounds(self, x: int, y: int) -> bool {
        0 <= x < self.side && 0 <= y < self.side
    }

    pub open spec fn x(self, c: int) -> int {
        self.cells[c].point.0 as int
    }

    pub open spec fn y(self, c: int) -> int {
        self.cells[c].point.1 as int
    }

    /// Cell `c` records the coordinates that its index stands for.
    pub open spec fn placed(self, c: int) -> bool {
        &&& self.in_bounds(self.x(c), self.y(c))
        &&& c == self.index(self.x(c), self.y(c))
    }

    /// Cell `c` has a cell beside it in direction `d`.
    pub open spec fn has_neighbor(self, c: int, d: Direction) -> bool {
        self.in_bounds(self.x(c) + d.dx(), self.y(c) + d.dy())
    }

    /// Index of the cell beside `c` in direction `d`.
    pub open spec fn neighbor(self, c: int, d: Direction) -> int {
        match d {
            Direction::Up => c - self.side,
            Direction::Down => c + self.side,
            Direction::Left => c - 1,
            Direction::Right => c + 1,
        }
    }

    /// Arena index of the wall on side `d` of cell `c`.
    pub open spec fn border(self, c: int, d: Direction) -> int {
        self.cells[c].borders[d.spec_idx()] as int
    }

    /// Whether the wall on side `d` of cell `c` stands.
    pub open spec fn shown(self, c: int, d: Direction) -> bool {
        self.segments[self.border(c, d)].shown
    }

    /// Sides `(c1, d1)` and `(c2, d2)` face each other across one wall.
    pub open spec fn twins(self, c1: int, d1: Direction, c2: int, d2: Direction) -> bool {
        &&& self.has_neighbor(c1, d1)
        &&& c2 == self.neighbor(c1, d1)
        &&& d2 == d1.opposite()
    }

    /// The cells that exist so far are laid out row by row, refer to walls
    /// of the arena, share the wall between neighbours and share no other.
    pub open spec fn structure_ok(self) -> bool {
        &&& 1 <= self.side
        &&& forall|c: int| self.is_cell(c) ==> #[trigger] self.placed(c)
        &&& forall|c: int, d: Direction|
            self.is_cell(c) ==> 0 <= #[trigger] self.border(c, d) < self.segments.len()
        &&& forall|c: int, d: Direction|
            self.is_cell(c) && #[trigger] self.has_neighbor(c, d) && self.is_cell(self.neighbor(c, d))
                ==> self.border(c, d) == self.border(self.neighbor(c, d), d.opposite())
        &&& forall|c1: int, d1: Direction, c2: int, d2: Direction|
            #![trigger self.border(c1, d1), self.border(c2, d2)]
            self.is_cell(c1) && self.is_cell(c2) && self.border(c1, d1) == self.border(c2, d2)
                ==> (c1 == c2 && d1 == d2) || self.twins(c1, d1, c2, d2)
    }

    /// A complete grid: `side * side` cells and `2 * side * (side + 1)`
    /// walls, well laid out.
    pub open spec fn wf(self) -> bool {
        &&& self.structure_ok()
        &&& Grid::fits(self.side)
        &&& self.cells.len() == self.side * self.side
        &&& self.segments.len() == 2 * self.side * (self.side + 1)
    }

    /// Number of walls made before the cell at `(x, y)` makes its own:
    /// two for each earlier cell, one more for each of them in the top
    /// row and one more for each in the left column.
    pub open spec fn made_before(self, x: int, y: int) -> int {
        2 * self.index(x, y) + (if y == 0 {
            x
        } else {
            self.side
        }) + y + (if x > 0 {
            1int
        } else {
            0int
        })
    }

    /// The walls that cell `c` makes stand in the arena where the walls
    /// made before it end: the wall above it, below it, to its left and
    /// to its right, in this order, as far as the cell makes them.
    pub open spec fn in_order(self, c: int) -> bool {
        let first = self.made_before(self.x(c), self.y(c));
        let down = if self.y(c) == 0 {
            first + 1
        } else {
            first
        };
        &&& self.y(c) == 0 ==> self.border(c, Direction::Up) == first
        &&& self.border(c, Direction::Down) == down
        &&& self.x(c) == 0 ==> self.border(c, Direction::Left) == down + 1
        &&& self.border(c, Direction::Right) == if self.x(c) == 0 {
            down + 2
        } else {
            down + 1
        }
    }

    /// The walls stand in the arena in the order in which the cells, row
    /// by row, make them.
    pub open spec fn ordered(self) -> bool {
        forall|c: int| self.is_cell(c) ==> #[trigger] self.in_order(c)
    }

    /// Every wall stands.
    pub open spec fn walled(self) -> bool {
        forall|l: int| 0 <= l < self.segments.len() ==> (#[trigger] self.segments[l]).shown
    }

    /// Every wall is as `Line::new` makes it, black and standing, for each
    /// side of each cell that it stands on.
    pub open spec fn pristine(self) -> bool {
        forall|c: int, d: Direction|
            self.is_cell(c) ==> self.segments[#[trigger] self.border(c, d)] == Line::spec_new(
                self.cells[c].point,
                d,
                None,
            )
    }

    /// `point` is a position in a grid of side `side`.
    pub open spec fn holds(side: int, point: Point) -> bool {
        0 <= point.0 < side && 0 <= point.1 < side
    }

    /// Sides `(one, d1)` and `(two, d2)` face each other across one edge.
    pub open spec fn across(one: Point, d1: Direction, two: Point, d2: Direction) -> bool {
        &&& two.0 == one.0 + d1.dx()
        &&& two.1 == one.1 + d1.dy()
        &&& d2 == d1.opposite()
    }

    /// The grid after the wall on side `d` of cell `c` became a passage.
    pub open spec fn concealed(self, c: int, d: Direction) -> Grid {
        let l = self.border(c, d);
        Grid { segments: self.segments.update(l, Line { shown: false, ..self.segments[l] }), ..self }
    }

    /// Same cells and walls, except that walls may have become passages.
    pub open spec fn carved_from(self, before: Grid) -> bool {
        &&& self.side == before.side
        &&& self.cells == before.cells
        &&& self.segments.len() == before.segments.len()
        &&& forall|l: int|
            0 <= l < self.segments.len() ==> {
                &&& (#[trigger] self.segments[l]).start == before.segments[l].start
                &&& self.segments[l].end == before.segments[l].end
                &&& self.segments[l].color == before.segments[l].color
                &&& self.segments[l].shown ==> before.segments[l].shown
            }
    }
}

/// In a grid of side `s`, the cell at `(x, y)` has an index below `s * s`.
pub proof fn lemma_index_bound(s: int, x: int, y: int)
    requires
        0 <= x < s,
        0 <= y < s,
    ensures
        0 <= y * s + x < s * s,
        y * s + x >= y * s,
{
    assert(0 <= y * s) by (nonlinear_arith)
        requires
            0 <= y,
            0 <= s,
    ;
    assert(y * s + s <= s * s) by (nonlinear_arith)
        requires
            0 <= y < s,
    ;
}

/// A side length that fits leaves room for every cell index.
pub proof fn lemma_fits(s: int)
    requires
        0 <= s,
        Grid::fits(s),
    ensures
        s * s <= usize::MAX,
        s < i32::MAX,
{
    assert(s * s <= 2 * s * (s + 1)) by (nonlinear_arith)
        requires
            0 <= s,
    ;
}

/// An index stands for one pair of coordinates only.
pub proof fn lemma_index_unique(s: int, x1: int, y1: int, x2: int, y2: int)
    requires
        0 <= x1 < s,
        0 <= x2 < s,
        y1 * s + x1 == y2 * s + x2,
    ensures
        x1 == x2,
        y1 == y2,
{
    if y1 < y2 {
        assert(y2 * s >= y1 * s + s) by (nonlinear_arith)
            requires
                y1 < y2,
                0 < s,
        ;
    } else if y2 < y1 {
        assert(y1 * s >= y2 * s + s) by (nonlinear_arith)
            requires
                y2 < y1,
                0 < s,
        ;
    }
}

/// One row further is `s` indices further.
pub proof fn lemma_index_row(s: int, y: int)
    ensures
        (y + 1) * s == y * s + s,
        (y - 1) * s == y * s - s,
{
    assert((y + 1) * s == y * s + s) by (nonlinear_arith);
    assert((y - 1) * s == y * s - s) by (nonlinear_arith);
}

/// A wall has length. It lies on the side of its cell that it is made
/// for, begins and ends as far from one corner as from the other, and is
/// no longer than the side.
pub proof fn lemma_wall_is_a_stub(
    side: int,
    point: Point,
    direction: Direction,
    color: Option<Rgb<u8>>,
)
    requires
        Grid::fits(side),
        Grid::holds(side, point),
    ensures
        ({
            let wall = Line::spec_new(point, direction, color);
            let (from, to) = Line::edge(point, direction);
            &&& wall.start != wall.end
            &&& from.0 <= wall.start.0 <= wall.end.0 <= to.0
            &&& from.1 <= wall.start.1 <= wall.end.1 <= to.1
            &&& wall.start.0 + wall.end.0 == from.0 + to.0
            &&& wall.start.1 + wall.end.1 == from.1 + to.1
            &&& (wall.end.0 - wall.start.0) + (wall.end.1 - wall.start.1) <= MULTIPLIER
        }),
{
    match direction {
        Direction::Up => {},
        Direction::Down => {},
        Direction::Left => {},
        Direction::Right => {},
    }
}

/// A wall is placed the same from either side: the cell across it gives
/// it the same end points.
pub proof fn lemma_wall_from_either_side(
    side: int,
    point: Point,
    direction: Direction,
    other: Point,
    color: Option<Rgb<u8>>,
)
    requires
        Grid::fits(side),
        Grid::holds(side, point),
        Grid::holds(side, other),
        Grid::across(point, direction, other, direction.opposite()),
    ensures
        Line::spec_new(point, direction, color) == Line::spec_new(
            other,
            direction.opposite(),
            color,
        ),
{
    match direction {
        Direction::Up => {},
        Direction::Down => {},
        Direction::Left => {},
        Direction::Right => {},
    }
}

/// Different walls lie at different places: two sides get the same end
/// points only if they are one side, or face each other across one edge.
pub proof fn lemma_walls_lie_apart(
    side: int,
    one: Point,
    d1: Direction,
    two: Point,
    d2: Direction,
    c1: Option<Rgb<u8>>,
    c2: Option<Rgb<u8>>,
)
    requires
        Grid::fits(side),
        Grid::holds(side, one),
        Grid::holds(side, two),
        Line::spec_new(one, d1, c1).start == Line::spec_new(two, d2, c2).start,
        Line::spec_new(one, d1, c1).end == Line::spec_new(two, d2, c2).end,
    ensures
        (one == two && d1 == d2) || Grid::across(one, d1, two, d2),
{
    lemma_wall_is_a_stub(side, one, d1, c1);
    lemma_wall_is_a_stub(side, two, d2, c2);
    match (d1, d2) {
        (Direction::Up, _) => {},
        (Direction::Down, _) => {},
        (Direction::Left, _) => {},
        (Direction::Right, _) => {},
    }
}

impl Grid {
    /// In a laid-out grid, the cell at in-bounds coordinates records them.
    pub proof fn lemma_cell_at(self, x: int, y: int)
        requires
            self.structure_ok(),
            self.in_bounds(x, y),
            self.is_cell(self.index(x, y)),
        ensures
            self.x(self.index(x, y)) == x,
            self.y(self.index(x, y)) == y,
    {
        let c = self.index(x, y);
        assert(self.placed(c));
        lemma_index_unique(self.side, x, y, self.x(c), self.y(c));
    }

    /// In a complete grid, a cell's neighbour is a cell one step away, and
    /// the way back leads to the cell itself.
    pub proof fn lemma_neighbor(self, c: int, d: Direction)
        requires
            self.wf(),
            self.is_cell(c),
            self.has_neighbor(c, d),
        ensures
            self.is_cell(self.neighbor(c, d)),
            self.neighbor(c, d) != c,
            self.neighbor(c, d) == self.index(self.x(c) + d.dx(), self.y(c) + d.dy()),
            self.x(self.neighbor(c, d)) == self.x(c) + d.dx(),
            self.y(self.neighbor(c, d)) == self.y(c) + d.dy(),
            self.has_neighbor(self.neighbor(c, d), d.opposite()),
            self.neighbor(self.neighbor(c, d), d.opposite()) == c,
            self.border(self.neighbor(c, d), d.opposite()) == self.border(c, d),
    {
        let s = self.side;
        let n = self.neighbor(c, d);
        let (x, y) = (self.x(c), self.y(c));
        assert(self.placed(c));
        lemma_index_row(s, y);
        lemma_index_bound(s, x + d.dx(), y + d.dy());
        assert(n == self.index(x + d.dx(), y + d.dy()));
        self.lemma_cell_at(x + d.dx(), y + d.dy());
    }

    /// In a grid as `Labyrinth::new` makes it, no two walls are alike: two
    /// sides of cells hold equal walls only if they hold the same one.
    pub proof fn lemma_pristine_walls_differ(self, c1: int, d1: Direction, c2: int, d2: Direction)
        requires
            self.wf(),
            self.pristine(),
            self.is_cell(c1),
            self.is_cell(c2),
            self.segments[self.border(c1, d1)] == self.segments[self.border(c2, d2)],
        ensures
            self.border(c1, d1) == self.border(c2, d2),
    {
        let (one, two) = (self.cells[c1].point, self.cells[c2].point);
        assert(self.placed(c1) && self.placed(c2));
        assert(self.segments[self.border(c1, d1)] == Line::spec_new(one, d1, None));
        assert(self.segments[self.border(c2, d2)] == Line::spec_new(two, d2, None));
        lemma_walls_lie_apart(self.side, one, d1, two, d2, None, None);
        if Grid::across(one, d1, two, d2) {
            assert(self.has_neighbor(c1, d1));
            self.lemma_neighbor(c1, d1);
            lemma_index_unique(
                self.side,
                self.x(c2),
                self.y(c2),
                self.x(self.neighbor(c1, d1)),
                self.y(self.neighbor(c1, d1)),
            );
        }
    }

    /// A complete grid has a first cell at `(0, 0)` and a last one at
    /// `(side - 1, side - 1)`.
    pub proof fn lemma_corners(self)
        requires
            self.wf(),
        ensures
            self.is_cell(0),
            self.x(0) == 0 && self.y(0) == 0,
            self.is_cell(self.cells.len() - 1),
            self.x(self.cells.len() - 1) == self.side - 1,
            self.y(self.cells.len() - 1) == self.side - 1,
            !self.has_neighbor(0, Direction::Left),
            !self.has_neighbor(self.cells.len() - 1, Direction::Right),
    {
        let s = self.side;
        lemma_index_bound(s, 0, 0);
        lemma_index_bound(s, s - 1, s - 1);
        lemma_index_row(s, s - 1);
        assert(self.index(0, 0) == 0) by (nonlinear_arith)
            requires
                self.index(0, 0) == 0 * s + 0,
        ;
        assert(self.index(s - 1, s - 1) == s * s - 1);
        self.lemma_cell_at(0, 0);
        self.lemma_cell_at(s - 1, s - 1);
    }
}

impl Grid {
    /// A grid that differs from a complete one in its walls' state alone is
    /// complete too.
    pub proof fn lemma_same_layout(self, before: Grid)
        requires
            before.wf(),
            self.side == before.side,
            self.cells == before.cells,
            self.segments.len() == before.segments.len(),
        ensures
            self.wf(),
    {
        assert forall|c: int| self.is_cell(c) implies #[trigger] self.placed(c) by {
            assert(before.placed(c));
        }
        assert forall|c: int, d: Direction| self.is_cell(c) implies 0 <= #[trigger] self.border(c, d)
            < self.segments.len() by {
            assert(self.border(c, d) == before.border(c, d));
        }
        assert forall|c: int, d: Direction|
            self.is_cell(c) && #[trigger] self.has_neighbor(c, d) && self.is_cell(
                self.neighbor(c, d),
            ) implies self.border(c, d) == self.border(self.neighbor(c, d), d.opposite()) by {
            assert(before.has_neighbor(c, d));
        }
        assert forall|c1: int, d1: Direction, c2: int, d2: Direction|
            #![trigger self.border(c1, d1), self.border(c2, d2)]
            self.is_cell(c1) && self.is_cell(c2) && self.border(c1, d1) == self.border(
                c2,
                d2,
            ) implies (c1 == c2 && d1 == d2) || self.twins(c1, d1, c2, d2) by {
            assert(before.border(c1, d1) == before.border(c2, d2));
            assert(self.twins(c1, d1, c2, d2) == before.twins(c1, d1, c2, d2));
        }
    }

    /// The wall on side `d` of cell `c` is a fresh arena entry of `self`,
    /// one that `before` did not hold yet.
    pub open spec fn fresh(self, before: Grid, c: int, d: Direction) -> bool {
        before.segments.len() <= self.border(c, d) < self.segments.len()
    }

    /// `self` is `before` with the cell at `(x, y)` added behind its cells:
    /// the new cell takes the wall above it and the wall to its left from
    /// the neighbours that made them, and fresh walls elsewhere.
    pub open spec fn grown_from(self, before: Grid, x: int, y: int) -> bool {
        let k = before.cells.len() as int;
        &&& self.side == before.side
        &&& before.in_bounds(x, y)
        &&& k == before.index(x, y)
        &&& self.cells.len() == k + 1
        &&& forall|c: int| 0 <= c < k ==> self.cells[c] == before.cells[c]
        &&& self.x(k) == x
        &&& self.y(k) == y
        &&& if y > 0 {
            self.border(k, Direction::Up) == before.border(k - before.side, Direction::Down)
        } else {
            self.fresh(before, k, Direction::Up) && self.border(k, Direction::Up) < self.border(
                k,
                Direction::Down,
            )
        }
        &&& self.fresh(before, k, Direction::Down)
        &&& if x > 0 {
            self.border(k, Direction::Left) == before.border(k - 1, Direction::Right)
        } else {
            self.fresh(before, k, Direction::Left) && self.border(k, Direction::Down)
                < self.border(k, Direction::Left) < self.border(k, Direction::Right)
        }
        &&& self.fresh(before, k, Direction::Right)
        &&& self.border(k, Direction::Down) < self.border(k, Direction::Right)
    }

    /// Adding a cell as `grown_from` says keeps the cells well laid out.
    pub proof fn lemma_grow(self, before: Grid, x: int, y: int)
        requires
            before.structure_ok(),
            self.grown_from(before, x, y),
        ensures
            self.structure_ok(),
    {
        let s = before.side;
        let k = before.cells.len() as int;
        lemma_index_row(s, y);
        if y > 0 {
            lemma_index_bound(s, x, y - 1);
            assert(before.placed(k - s));
            lemma_index_unique(s, x, y - 1, before.x(k - s), before.y(k - s));
        }
        if k > 0 {
            assert(before.placed(k - 1));
            if x > 0 {
                lemma_index_unique(s, x - 1, y, before.x(k - 1), before.y(k - 1));
            } else {
                lemma_index_unique(s, s - 1, y - 1, before.x(k - 1), before.y(k - 1));
            }
        }
        assert forall|c: int| self.is_cell(c) implies #[trigger] self.placed(c) by {
            if c < k {
                assert(before.placed(c));
            }
        }
        assert forall|c: int, d: Direction| self.is_cell(c) implies 0 <= #[trigger] self.border(c, d)
            < self.segments.len() by {
            if c < k {
                assert(self.border(c, d) == before.border(c, d));
            } else {
                self.lemma_new_borders(before, x, y, d);
            }
        }
        assert forall|c: int, d: Direction|
            self.is_cell(c) && #[trigger] self.has_neighbor(c, d) && self.is_cell(
                self.neighbor(c, d),
            ) implies self.border(c, d) == self.border(self.neighbor(c, d), d.opposite()) by {
            let n = self.neighbor(c, d);
            if c < k && n < k {
                assert(before.has_neighbor(c, d));
                assert(self.border(c, d) == before.border(c, d));
                assert(self.border(n, d.opposite()) == before.border(n, d.opposite()));
            } else if c < k {
                assert(before.placed(c));
            }
        }
        assert forall|c1: int, d1: Direction, c2: int, d2: Direction|
            #![trigger self.border(c1, d1), self.border(c2, d2)]
            self.is_cell(c1) && self.is_cell(c2) && self.border(c1, d1) == self.border(
                c2,
                d2,
            ) implies (c1 == c2 && d1 == d2) || self.twins(c1, d1, c2, d2) by {
            if c1 < k && c2 < k {
                assert(before.border(c1, d1) == before.border(c2, d2));
                assert(self.twins(c1, d1, c2, d2) == before.twins(c1, d1, c2, d2));
            } else if c1 < k {
                self.lemma_new_borders(before, x, y, d2);
                assert(self.border(c1, d1) == before.border(c1, d1));
                assert(before.placed(c1));
                if d2 == Direction::Up {
                    assert(before.border(c1, d1) == before.border(k - s, Direction::Down));
                } else {
                    assert(before.border(c1, d1) == before.border(k - 1, Direction::Right));
                }
            } else if c2 < k {
                self.lemma_new_borders(before, x, y, d1);
                assert(self.border(c2, d2) == before.border(c2, d2));
                assert(before.placed(c2));
                if d1 == Direction::Up {
                    assert(before.border(k - s, Direction::Down) == before.border(c2, d2));
                } else {
                    assert(before.border(k - 1, Direction::Right) == before.border(c2, d2));
                }
            } else {
                self.lemma_new_borders(before, x, y, d1);
                self.lemma_new_borders(before, x, y, d2);
                if y > 0 && x > 0 {
                    assert(before.border(k - s, Direction::Down) != before.border(
                        k - 1,
                        Direction::Right,
                    ));
                }
            }
        }
    }

    /// Each wall of the cell that `grown_from` adds is either fresh or a
    /// wall of `before`.
    proof fn lemma_new_borders(self, before: Grid, x: int, y: int, d: Direction)
        requires
            before.structure_ok(),
            self.grown_from(before, x, y),
        ensures
            ({
                let k = before.cells.len() as int;
                &&& 0 <= self.border(k, d) < self.segments.len()
                &&& self.fresh(before, k, d) || self.border(k, d) < before.segments.len()
                &&& !self.fresh(before, k, d) ==> {
                    ||| d == Direction::Up && y > 0 && self.border(k, d) == before.border(
                        k - before.side,
                        Direction::Down,
                    ) && before.is_cell(k - before.side)
                    ||| d == Direction::Left && x > 0 && self.border(k, d) == before.border(
                        k - 1,
                        Direction::Right,
                    ) && before.is_cell(k - 1)
                }
            }),
    {
        let s = before.side;
        let k = before.cells.len() as int;
        lemma_index_row(s, y);
        if y > 0 {
            lemma_index_bound(s, x, y - 1);
            assert(0 <= before.border(k - s, Direction::Down) < before.segments.len());
        }
        if x > 0 {
            lemma_index_bound(s, x - 1, y);
            assert(0 <= before.border(k - 1, Direction::Right) < before.segments.len());
        }
        match d {
            Direction::Up => {},
            Direction::Down => {},
            Direction::Left => {},
            Direction::Right => {},
        }
    }
}

} // verus!
