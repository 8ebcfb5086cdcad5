//! Counting walls: how many stand between cells and how many at the edge.
use vstd::prelude::*;
use vstd::set_lib::{
    lemma_int_range, lemma_set_disjoint_lens, lemma_subset_equality, set_int_range,
};
use crate::layout::{lemma_index_bound, lemma_index_unique, Grid};
use crate::shapes::Direction;

verus! {

impl Grid {
    /// The walls between two cells.
    pub open spec fn interior_walls(self) -> Set<int> {
        Set::new(|l: int| self.interior(l))
    }

    /// Wall `l` stands on a side of a cell that has no neighbour.
    pub open spec fn outer(self, l: int) -> bool {
        exists|c: int, d: Direction|
            self.is_cell(c) && !self.has_neighbor(c, d) && #[trigger] self.border(c, d) == l
    }

    /// The walls at the edge of the grid.
    pub open spec fn edge_walls(self) -> Set<int> {
        Set::new(|l: int| self.outer(l))
    }

    /// The walls on side `d` of the cells in columns `x0..x1` of rows
    /// `y0..y1`.
    pub open spec fn walls_in(self, d: Direction, x0: int, x1: int, y0: int, y1: int) -> Set<int> {
        Set::new(
            |l: int|
                exists|x: int, y: int|
                    x0 <= x < x1 && y0 <= y < y1 && #[trigger] self.border(self.index(x, y), d)
                        == l,
        )
    }

    /// Two cells have different walls on the same side.
    proof fn lemma_same_side(self, d: Direction, x: int, y: int, x2: int, y2: int)
        requires
            self.wf(),
            self.in_bounds(x, y),
            self.in_bounds(x2, y2),
            self.border(self.index(x, y), d) == self.border(self.index(x2, y2), d),
        ensures
            x == x2,
            y == y2,
    {
        lemma_index_bound(self.side, x, y);
        lemma_index_bound(self.side, x2, y2);
        assert(self.is_cell(self.index(x, y)) && self.is_cell(self.index(x2, y2)));
        lemma_index_unique(self.side, x, y, x2, y2);
    }

    /// A wall that two cells have on different sides stands between them.
    proof fn lemma_other_side(self, d: Direction, x: int, y: int, d2: Direction, x2: int, y2: int)
        requires
            self.wf(),
            self.in_bounds(x, y),
            self.in_bounds(x2, y2),
            d != d2,
            self.border(self.index(x, y), d) == self.border(self.index(x2, y2), d2),
        ensures
            d2 == d.opposite(),
            self.has_neighbor(self.index(x, y), d),
            self.has_neighbor(self.index(x2, y2), d2),
    {
        let (c, c2) = (self.index(x, y), self.index(x2, y2));
        lemma_index_bound(self.side, x, y);
        lemma_index_bound(self.side, x2, y2);
        assert(self.is_cell(c) && self.is_cell(c2));
        assert(self.twins(c, d, c2, d2));
        self.lemma_neighbor(c, d);
    }

    /// One row of cells has as many walls on one side as it has cells.
    proof fn lemma_walls_in_row(self, d: Direction, x0: int, x1: int, y: int)
        requires
            self.wf(),
            0 <= x0 <= x1 <= self.side,
            0 <= y < self.side,
        ensures
            self.walls_in(d, x0, x1, y, y + 1).finite(),
            self.walls_in(d, x0, x1, y, y + 1).len() == x1 - x0,
        decreases x1 - x0,
    {
        let all = self.walls_in(d, x0, x1, y, y + 1);
        if x0 == x1 {
            assert(all =~= Set::<int>::empty());
        } else {
            let less = self.walls_in(d, x0, x1 - 1, y, y + 1);
            let last = self.border(self.index(x1 - 1, y), d);
            self.lemma_walls_in_row(d, x0, x1 - 1, y);
            if less.contains(last) {
                let (x, y2) = choose|x: int, y2: int|
                    x0 <= x < x1 - 1 && y <= y2 < y + 1 && #[trigger] self.border(
                        self.index(x, y2),
                        d,
                    ) == last;
                self.lemma_same_side(d, x, y2, x1 - 1, y);
            }
            assert(all =~= less.insert(last));
        }
    }

    /// A block of cells has as many walls on one side as it has cells.
    pub proof fn lemma_walls_in(self, d: Direction, x0: int, x1: int, y0: int, y1: int)
        requires
            self.wf(),
            0 <= x0 <= x1 <= self.side,
            0 <= y0 <= y1 <= self.side,
        ensures
            self.walls_in(d, x0, x1, y0, y1).finite(),
            self.walls_in(d, x0, x1, y0, y1).len() == (x1 - x0) * (y1 - y0),
        decreases y1 - y0,
    {
        let all = self.walls_in(d, x0, x1, y0, y1);
        if y0 == y1 {
            assert(all =~= Set::<int>::empty());
        } else {
            let above = self.walls_in(d, x0, x1, y0, y1 - 1);
            let row = self.walls_in(d, x0, x1, y1 - 1, y1);
            self.lemma_walls_in(d, x0, x1, y0, y1 - 1);
            self.lemma_walls_in_row(d, x0, x1, y1 - 1);
            assert forall|l: int| above.contains(l) implies !row.contains(l) by {
                if row.contains(l) {
                    let (x, y) = choose|x: int, y: int|
                        x0 <= x < x1 && y0 <= y < y1 - 1 && #[trigger] self.border(
                            self.index(x, y),
                            d,
                        ) == l;
                    let (x2, y2) = choose|x2: int, y2: int|
                        x0 <= x2 < x1 && y1 - 1 <= y2 < y1 && #[trigger] self.border(
                            self.index(x2, y2),
                            d,
                        ) == l;
                    self.lemma_same_side(d, x, y, x2, y2);
                }
            }
            lemma_set_disjoint_lens(above, row);
            assert(all =~= above + row);
            assert((x1 - x0) * (y1 - y0) == (x1 - x0) * (y1 - 1 - y0) + (x1 - x0))
                by (nonlinear_arith);
        }
    }

    /// Walls that blocks of cells have on different sides are different
    /// walls, unless the sides face each other and some of them have a
    /// neighbour.
    proof fn lemma_walls_in_apart(
        self,
        d: Direction,
        x0: int,
        x1: int,
        y0: int,
        y1: int,
        d2: Direction,
        u0: int,
        u1: int,
        v0: int,
        v1: int,
    )
        requires
            self.wf(),
            0 <= x0 <= x1 <= self.side,
            0 <= y0 <= y1 <= self.side,
            0 <= u0 <= u1 <= self.side,
            0 <= v0 <= v1 <= self.side,
            d != d2,
            d2 != d.opposite() || forall|x: int, y: int|
                x0 <= x < x1 && y0 <= y < y1 ==> !#[trigger] self.has_neighbor(self.index(x, y), d),
        ensures
            self.walls_in(d, x0, x1, y0, y1).disjoint(self.walls_in(d2, u0, u1, v0, v1)),
            (self.walls_in(d, x0, x1, y0, y1) + self.walls_in(d2, u0, u1, v0, v1)).len() == (x1
                - x0) * (y1 - y0) + (u1 - u0) * (v1 - v0),
    {
        let one = self.walls_in(d, x0, x1, y0, y1);
        let other = self.walls_in(d2, u0, u1, v0, v1);
        assert forall|l: int| one.contains(l) implies !other.contains(l) by {
            if other.contains(l) {
                let (x, y) = choose|x: int, y: int|
                    x0 <= x < x1 && y0 <= y < y1 && #[trigger] self.border(self.index(x, y), d)
                        == l;
                let (x2, y2) = choose|x2: int, y2: int|
                    u0 <= x2 < u1 && v0 <= y2 < v1 && #[trigger] self.border(
                        self.index(x2, y2),
                        d2,
                    ) == l;
                self.lemma_other_side(d, x, y, d2, x2, y2);
            }
        }
        self.lemma_walls_in(d, x0, x1, y0, y1);
        self.lemma_walls_in(d2, u0, u1, v0, v1);
        lemma_set_disjoint_lens(one, other);
    }

    /// A grid of side `N` has `2 * N * (N - 1)` walls between cells.
    pub proof fn lemma_interior_walls(self)
        requires
            self.wf(),
        ensures
            self.interior_walls().finite(),
            self.interior_walls().len() == 2 * self.side * (self.side - 1),
    {
        let n = self.side;
        let below = self.walls_in(Direction::Down, 0, n, 0, n - 1);
        let beside = self.walls_in(Direction::Right, 0, n - 1, 0, n);
        self.lemma_walls_in_apart(Direction::Down, 0, n, 0, n - 1, Direction::Right, 0, n - 1, 0, n);
        self.lemma_walls_in(Direction::Down, 0, n, 0, n - 1);
        self.lemma_walls_in(Direction::Right, 0, n - 1, 0, n);
        assert forall|l: int| self.interior_walls().contains(l) implies (below + beside).contains(
            l,
        ) by {
            let (c, d) = choose|c: int, d: Direction|
                self.is_cell(c) && self.has_neighbor(c, d) && #[trigger] self.border(c, d) == l;
            assert(self.placed(c));
            self.lemma_neighbor(c, d);
            let m = self.neighbor(c, d);
            assert(self.placed(m));
            match d {
                Direction::Down => {
                    assert(self.border(self.index(self.x(c), self.y(c)), Direction::Down) == l);
                },
                Direction::Right => {
                    assert(self.border(self.index(self.x(c), self.y(c)), Direction::Right) == l);
                },
                Direction::Up => {
                    assert(self.border(self.index(self.x(m), self.y(m)), Direction::Down) == l);
                },
                Direction::Left => {
                    assert(self.border(self.index(self.x(m), self.y(m)), Direction::Right) == l);
                },
            }
        }
        assert forall|l: int| (below + beside).contains(l) implies self.interior_walls().contains(
            l,
        ) by {
            if below.contains(l) {
                let (x, y) = choose|x: int, y: int|
                    0 <= x < n && 0 <= y < n - 1 && #[trigger] self.border(
                        self.index(x, y),
                        Direction::Down,
                    ) == l;
                lemma_index_bound(n, x, y);
                self.lemma_cell_at(x, y);
                assert(self.has_neighbor(self.index(x, y), Direction::Down));
            } else {
                let (x, y) = choose|x: int, y: int|
                    0 <= x < n - 1 && 0 <= y < n && #[trigger] self.border(
                        self.index(x, y),
                        Direction::Right,
                    ) == l;
                lemma_index_bound(n, x, y);
                self.lemma_cell_at(x, y);
                assert(self.has_neighbor(self.index(x, y), Direction::Right));
            }
        }
        assert(self.interior_walls() =~= below + beside);
        assert(n * (n - 1) + (n - 1) * n == 2 * n * (n - 1)) by (nonlinear_arith);
    }

    /// The cells of one edge of the grid have no neighbour beyond it.
    proof fn lemma_no_neighbor_beyond(self, d: Direction, x0: int, x1: int, y0: int, y1: int)
        requires
            self.wf(),
            0 <= x0 <= x1 <= self.side,
            0 <= y0 <= y1 <= self.side,
            match d {
                Direction::Up => y1 <= 1,
                Direction::Down => self.side - 1 <= y0,
                Direction::Left => x1 <= 1,
                Direction::Right => self.side - 1 <= x0,
            },
        ensures
            forall|x: int, y: int|
                x0 <= x < x1 && y0 <= y < y1 ==> !#[trigger] self.has_neighbor(self.index(x, y), d),
    {
        assert forall|x: int, y: int| x0 <= x < x1 && y0 <= y < y1 implies !#[trigger] self.has_neighbor(
            self.index(x, y),
            d,
        ) by {
            lemma_index_bound(self.side, x, y);
            self.lemma_cell_at(x, y);
        }
    }

    /// A grid of side `N` has `4 * N` walls at its edge.
    pub proof fn lemma_edge_walls(self)
        requires
            self.wf(),
        ensures
            self.edge_walls().finite(),
            self.edge_walls().len() == 4 * self.side,
    {
        let n = self.side;
        let top = self.walls_in(Direction::Up, 0, n, 0, 1);
        let bottom = self.walls_in(Direction::Down, 0, n, n - 1, n);
        let left = self.walls_in(Direction::Left, 0, 1, 0, n);
        let right = self.walls_in(Direction::Right, n - 1, n, 0, n);
        self.lemma_no_neighbor_beyond(Direction::Up, 0, n, 0, 1);
        self.lemma_no_neighbor_beyond(Direction::Left, 0, 1, 0, n);
        self.lemma_walls_in_apart(Direction::Up, 0, n, 0, 1, Direction::Down, 0, n, n - 1, n);
        self.lemma_walls_in_apart(Direction::Left, 0, 1, 0, n, Direction::Right, n - 1, n, 0, n);
        self.lemma_walls_in_apart(Direction::Up, 0, n, 0, 1, Direction::Left, 0, 1, 0, n);
        self.lemma_walls_in_apart(Direction::Up, 0, n, 0, 1, Direction::Right, n - 1, n, 0, n);
        self.lemma_walls_in_apart(Direction::Down, 0, n, n - 1, n, Direction::Left, 0, 1, 0, n);
        self.lemma_walls_in_apart(Direction::Down, 0, n, n - 1, n, Direction::Right, n - 1, n, 0, n);
        self.lemma_walls_in(Direction::Up, 0, n, 0, 1);
        self.lemma_walls_in(Direction::Down, 0, n, n - 1, n);
        self.lemma_walls_in(Direction::Left, 0, 1, 0, n);
        self.lemma_walls_in(Direction::Right, n - 1, n, 0, n);
        assert((top + bottom).disjoint(left + right));
        lemma_set_disjoint_lens(top + bottom, left + right);
        assert forall|l: int| self.edge_walls().contains(l) implies ((top + bottom) + (left
            + right)).contains(l) by {
            let (c, d) = choose|c: int, d: Direction|
                self.is_cell(c) && !self.has_neighbor(c, d) && #[trigger] self.border(c, d) == l;
            assert(self.placed(c));
            assert(self.border(self.index(self.x(c), self.y(c)), d) == l);
            match d {
                Direction::Up => {
                    assert(top.contains(l));
                },
                Direction::Down => {
                    assert(bottom.contains(l));
                },
                Direction::Left => {
                    assert(left.contains(l));
                },
                Direction::Right => {
                    assert(right.contains(l));
                },
            }
        }
        self.lemma_no_neighbor_beyond(Direction::Down, 0, n, n - 1, n);
        self.lemma_no_neighbor_beyond(Direction::Right, n - 1, n, 0, n);
        assert forall|l: int| ((top + bottom) + (left + right)).contains(
            l,
        ) implies self.edge_walls().contains(l) by {
            let d = if top.contains(l) {
                Direction::Up
            } else if bottom.contains(l) {
                Direction::Down
            } else if left.contains(l) {
                Direction::Left
            } else {
                Direction::Right
            };
            let (x, y) = choose|x: int, y: int|
                0 <= x < n && 0 <= y < n && !self.has_neighbor(self.index(x, y), d)
                    && #[trigger] self.border(self.index(x, y), d) == l;
            lemma_index_bound(n, x, y);
        }
        assert(self.edge_walls() =~= (top + bottom) + (left + right));
        assert(n * 1 == n && 1 * n == n) by (nonlinear_arith);
    }

    /// Every wall of the arena stands either between two cells or at the
    /// edge of the grid, and none does both.
    pub proof fn lemma_census(self)
        requires
            self.wf(),
        ensures
            self.interior_walls().disjoint(self.edge_walls()),
            self.interior_walls().len() == 2 * self.side * (self.side - 1),
            self.edge_walls().len() == 4 * self.side,
            forall|l: int| 0 <= l < self.segments.len() ==> self.interior(l) || self.outer(l),
    {
        let n = self.side;
        let all = set_int_range(0, self.segments.len() as int);
        let found = self.interior_walls() + self.edge_walls();
        self.lemma_interior_walls();
        self.lemma_edge_walls();
        assert forall|l: int| self.interior_walls().contains(l) implies !self.edge_walls().contains(
            l,
        ) by {
            if self.edge_walls().contains(l) {
                let (c, d) = choose|c: int, d: Direction|
                    self.is_cell(c) && self.has_neighbor(c, d) && #[trigger] self.border(c, d) == l;
                let (c2, d2) = choose|c2: int, d2: Direction|
                    self.is_cell(c2) && !self.has_neighbor(c2, d2) && #[trigger] self.border(c2, d2)
                        == l;
                assert(self.twins(c, d, c2, d2));
                self.lemma_neighbor(c, d);
            }
        }
        lemma_set_disjoint_lens(self.interior_walls(), self.edge_walls());
        lemma_int_range(0, self.segments.len() as int);
        assert forall|l: int| found.contains(l) implies all.contains(l) by {
            if self.interior(l) {
                let (c, d) = choose|c: int, d: Direction|
                    self.is_cell(c) && self.has_neighbor(c, d) && #[trigger] self.border(c, d) == l;
            } else {
                let (c2, d2) = choose|c2: int, d2: Direction|
                    self.is_cell(c2) && !self.has_neighbor(c2, d2) && #[trigger] self.border(c2, d2)
                        == l;
            }
        }
        assert(2 * n * (n - 1) + 4 * n == 2 * n * (n + 1)) by (nonlinear_arith);
        lemma_subset_equality(found, all);
        assert forall|l: int| 0 <= l < self.segments.len() implies self.interior(l) || self.outer(
            l,
        ) by {
            assert(all.contains(l));
            assert(found.contains(l));
        }
    }

    /// Every wall of the arena stands on some side of some cell.
    pub proof fn lemma_side_of(self, l: int) -> (side: (int, Direction))
        requires
            self.wf(),
            0 <= l < self.segments.len(),
        ensures
            self.is_cell(side.0),
            self.border(side.0, side.1) == l,
    {
        self.lemma_census();
        if self.interior(l) {
            choose|c: int, d: Direction|
                self.is_cell(c) && self.has_neighbor(c, d) && #[trigger] self.border(c, d) == l
        } else {
            choose|c: int, d: Direction|
                self.is_cell(c) && !self.has_neighbor(c, d) && #[trigger] self.border(c, d) == l
        }
    }

    /// In a grid as `Labyrinth::new` makes it, walls that are alike are
    /// one wall: no two entries of the arena have the same end points.
    pub proof fn lemma_pristine_arena(self, l1: int, l2: int)
        requires
            self.wf(),
            self.pristine(),
            0 <= l1 < self.segments.len(),
            0 <= l2 < self.segments.len(),
            self.segments[l1] == self.segments[l2],
        ensures
            l1 == l2,
    {
        let (c1, d1) = self.lemma_side_of(l1);
        let (c2, d2) = self.lemma_side_of(l2);
        self.lemma_pristine_walls_differ(c1, d1, c2, d2);
    }
}

} // verus!
