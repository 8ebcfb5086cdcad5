//! The graph of open passages: which cells a carved grid joins.
use vstd::prelude::*;
use vstd::set_lib::{lemma_int_range, lemma_len_subset, set_int_range};
use crate::layout::Grid;
use crate::shapes::Direction;

verus! {

impl Grid {
    /// Cell `c` has a neighbour in direction `d`, and the wall between
    /// them is a passage.
    pub open spec fn open_toward(self, c: int, d: Direction) -> bool {
        self.is_cell(c) && self.has_neighbor(c, d) && !self.shown(c, d)
    }

    /// Cells `a` and `b` are neighbours with a passage between them.
    pub open spec fn passage(self, a: int, b: int) -> bool {
        exists|d: Direction| #[trigger] self.open_toward(a, d) && self.neighbor(a, d) == b
    }

    /// `p` is a walk through passages, cell by cell.
    pub open spec fn is_path(self, p: Seq<int>) -> bool {
        &&& p.len() >= 1
        &&& forall|i: int| 0 <= i < p.len() ==> self.is_cell(#[trigger] p[i])
        &&& forall|i: int| 0 <= i < p.len() - 1 ==> #[trigger] self.passage(p[i], p[i + 1])
    }

    /// `p` is a walk through passages from `a` to `b`.
    pub open spec fn joins(self, p: Seq<int>, a: int, b: int) -> bool {
        self.is_path(p) && p[0] == a && p.last() == b
    }

    /// Some walk through passages leads from `a` to `b`.
    pub open spec fn connected(self, a: int, b: int) -> bool {
        exists|p: Seq<int>| #[trigger] self.joins(p, a, b)
    }

    /// Wall `l` stands between two cells, not at the edge of the grid.
    pub open spec fn interior(self, l: int) -> bool {
        exists|c: int, d: Direction|
            self.is_cell(c) && self.has_neighbor(c, d) && #[trigger] self.border(c, d) == l
    }

    /// The edges of the passage graph: the interior walls that are hidden.
    pub open spec fn open_passages(self) -> Set<int> {
        Set::new(
            |l: int| 0 <= l < self.segments.len() && self.interior(l) && !self.segments[l].shown,
        )
    }

    /// No passage between two cells is open.
    pub open spec fn sealed(self) -> bool {
        forall|c: int, d: Direction|
            self.is_cell(c) && #[trigger] self.has_neighbor(c, d) ==> self.shown(c, d)
    }

    /// The passages form a spanning tree: they join every cell to every
    /// other, and there is one fewer of them than there are cells.
    pub open spec fn perfect(self) -> bool {
        &&& forall|a: int, b: int|
            self.is_cell(a) && self.is_cell(b) ==> #[trigger] self.connected(a, b)
        &&& self.open_passages().finite()
        &&& self.open_passages().len() == self.cells.len() - 1
    }

    /// Hiding the wall on side `d` of cell `c` hides it on that side and
    /// on the side of the neighbour across it, and on no other side of any
    /// cell.
    pub proof fn lemma_concealed(self, c: int, d: Direction)
        requires
            self.wf(),
            self.is_cell(c),
        ensures
            self.concealed(c, d).wf(),
            self.concealed(c, d).carved_from(self),
            forall|a: int, e: Direction|
                self.is_cell(a) ==> (#[trigger] self.concealed(c, d).shown(a, e) <==> self.shown(a, e)
                    && !((a == c && e == d) || self.twins(c, d, a, e))),
    {
        let after = self.concealed(c, d);
        after.lemma_same_layout(self);
        assert(0 <= self.border(c, d) < self.segments.len());
        assert forall|a: int, e: Direction| self.is_cell(a) implies (#[trigger] after.shown(a, e)
            <==> self.shown(a, e) && !((a == c && e == d) || self.twins(c, d, a, e))) by {
            assert(0 <= self.border(a, e) < self.segments.len());
            if self.border(a, e) == self.border(c, d) {
                assert((c == a && d == e) || self.twins(c, d, a, e));
            } else {
                if self.twins(c, d, a, e) {
                    self.lemma_neighbor(c, d);
                }
            }
        }
    }

    /// A passage can be walked both ways.
    pub proof fn lemma_passage_back(self, a: int, b: int)
        requires
            self.wf(),
            self.passage(a, b),
        ensures
            self.is_cell(a),
            self.is_cell(b),
            self.passage(b, a),
    {
        let d = choose|d: Direction| #[trigger] self.open_toward(a, d) && self.neighbor(a, d) == b;
        self.lemma_neighbor(a, d);
        assert(self.open_toward(b, d.opposite()));
    }

    /// Every cell is joined to itself.
    pub proof fn lemma_connected_self(self, a: int)
        requires
            self.is_cell(a),
        ensures
            self.connected(a, a),
    {
        assert(self.joins(seq![a], a, a));
    }

    /// A walk can be continued through one more passage.
    pub proof fn lemma_connected_on(self, a: int, b: int, c: int)
        requires
            self.wf(),
            self.connected(a, b),
            self.passage(b, c),
        ensures
            self.connected(a, c),
    {
        let p = choose|p: Seq<int>| #[trigger] self.joins(p, a, b);
        let q = p.push(c);
        self.lemma_passage_back(b, c);
        assert forall|i: int| 0 <= i < q.len() - 1 implies #[trigger] self.passage(
            q[i],
            q[i + 1],
        ) by {
            if i < p.len() - 1 {
                assert(self.passage(p[i], p[i + 1]));
            }
        }
        assert(self.joins(q, a, c));
    }

    /// A walk can be entered through one more passage.
    pub proof fn lemma_connected_from(self, a: int, b: int, c: int)
        requires
            self.wf(),
            self.passage(a, b),
            self.connected(b, c),
        ensures
            self.connected(a, c),
    {
        let p = choose|p: Seq<int>| #[trigger] self.joins(p, b, c);
        let q = seq![a] + p;
        self.lemma_passage_back(a, b);
        assert forall|i: int| 0 <= i < q.len() - 1 implies #[trigger] self.passage(
            q[i],
            q[i + 1],
        ) by {
            if i > 0 {
                assert(self.passage(p[i - 1], p[i - 1 + 1]));
            }
        }
        assert(self.joins(q, a, c));
    }

    /// The cell where a walk starts is joined to each cell on it, and each
    /// cell on it to the cell where it starts.
    pub proof fn lemma_connected_along(self, p: Seq<int>, k: int)
        requires
            self.wf(),
            self.is_path(p),
            0 <= k < p.len(),
        ensures
            self.connected(p[0], p[k]),
            self.connected(p[k], p[0]),
        decreases k,
    {
        if k == 0 {
            self.lemma_connected_self(p[0]);
        } else {
            self.lemma_connected_along(p, k - 1);
            assert(self.passage(p[k - 1], p[k - 1 + 1]));
            self.lemma_connected_on(p[0], p[k - 1], p[k]);
            self.lemma_passage_back(p[k - 1], p[k]);
            self.lemma_connected_from(p[k], p[k - 1], p[0]);
        }
    }

    /// Being joined is symmetric.
    pub proof fn lemma_connected_back(self, a: int, b: int)
        requires
            self.wf(),
            self.connected(a, b),
        ensures
            self.connected(b, a),
    {
        let p = choose|p: Seq<int>| #[trigger] self.joins(p, a, b);
        self.lemma_connected_along(p, p.len() - 1);
    }

    /// Being joined is transitive.
    pub proof fn lemma_connected_through(self, a: int, b: int, c: int)
        requires
            self.wf(),
            self.connected(a, b),
            self.connected(b, c),
        ensures
            self.connected(a, c),
    {
        let p = choose|p: Seq<int>| #[trigger] self.joins(p, b, c);
        self.lemma_connected_via(a, p, p.len() - 1);
    }

    /// Whatever is joined to the start of a walk is joined to each cell on
    /// it.
    proof fn lemma_connected_via(self, a: int, p: Seq<int>, k: int)
        requires
            self.wf(),
            self.is_path(p),
            self.connected(a, p[0]),
            0 <= k < p.len(),
        ensures
            self.connected(a, p[k]),
        decreases k,
    {
        if k > 0 {
            self.lemma_connected_via(a, p, k - 1);
            assert(self.passage(p[k - 1], p[k - 1 + 1]));
            self.lemma_connected_on(a, p[k - 1], p[k]);
        }
    }

    /// Carving takes no passage away: cells that were joined stay joined.
    pub proof fn lemma_carved_connected(self, before: Grid, a: int, b: int)
        requires
            before.wf(),
            self.carved_from(before),
            before.connected(a, b),
        ensures
            self.connected(a, b),
    {
        let p = choose|p: Seq<int>| #[trigger] before.joins(p, a, b);
        assert forall|i: int| 0 <= i < p.len() - 1 implies #[trigger] self.passage(
            p[i],
            p[i + 1],
        ) by {
            assert(before.passage(p[i], p[i + 1]));
            let d = choose|d: Direction| #[trigger]
                before.open_toward(p[i], d) && before.neighbor(p[i], d) == p[i + 1];
            assert(0 <= before.border(p[i], d) < before.segments.len());
            assert(!self.segments[before.border(p[i], d)].shown);
            assert(self.open_toward(p[i], d));
        }
        assert(self.joins(p, a, b));
    }

    /// There are no more open passages than walls.
    pub proof fn lemma_open_passages_finite(self)
        ensures
            self.open_passages().finite(),
            self.open_passages().len() <= self.segments.len(),
    {
        let all = set_int_range(0, self.segments.len() as int);
        lemma_int_range(0, self.segments.len() as int);
        assert(self.open_passages().subset_of(all));
        lemma_len_subset(self.open_passages(), all);
    }

    /// A sealed grid has no open passage.
    pub proof fn lemma_sealed_empty(self)
        requires
            self.wf(),
            self.sealed(),
        ensures
            self.open_passages() == Set::<int>::empty(),
    {
        assert forall|l: int| !self.open_passages().contains(l) by {
            if 0 <= l < self.segments.len() && self.interior(l) {
                let (c, d) = choose|c: int, d: Direction|
                    self.is_cell(c) && self.has_neighbor(c, d) && #[trigger] self.border(c, d) == l;
                assert(self.shown(c, d));
            }
        }
        assert(self.open_passages() =~= Set::<int>::empty());
    }

    /// Hiding a wall at the edge of the grid opens no passage between
    /// cells.
    pub proof fn lemma_concealed_edge(self, c: int, d: Direction)
        requires
            self.wf(),
            self.is_cell(c),
            !self.has_neighbor(c, d),
        ensures
            self.concealed(c, d).open_passages() == self.open_passages(),
            self.sealed() ==> self.concealed(c, d).sealed(),
    {
        let after = self.concealed(c, d);
        let l = self.border(c, d);
        self.lemma_concealed(c, d);
        assert(0 <= l < self.segments.len());
        assert forall|m: int| self.interior(m) == after.interior(m) by {
            self.lemma_same_interior(after, m);
        }
        if self.interior(l) {
            let (a, e) = choose|a: int, e: Direction|
                self.is_cell(a) && self.has_neighbor(a, e) && #[trigger] self.border(a, e) == l;
            assert((a == c && e == d) || self.twins(a, e, c, d));
            self.lemma_neighbor(a, e);
        }
        assert(after.open_passages() =~= self.open_passages());
        if self.sealed() {
            assert forall|a: int, e: Direction|
                after.is_cell(a) && #[trigger] after.has_neighbor(a, e) implies after.shown(
                a,
                e,
            ) by {
                assert(self.has_neighbor(a, e));
                assert(after.shown(a, e) <==> self.shown(a, e) && !((a == c && e == d)
                    || self.twins(c, d, a, e)));
            }
        }
    }

    /// Which walls are interior depends on the layout alone.
    pub proof fn lemma_same_interior(self, other: Grid, l: int)
        requires
            self.side == other.side,
            self.cells == other.cells,
        ensures
            self.interior(l) == other.interior(l),
    {
        if self.interior(l) {
            let (a, e) = choose|a: int, e: Direction|
                self.is_cell(a) && self.has_neighbor(a, e) && #[trigger] self.border(a, e) == l;
            assert(other.is_cell(a) && other.has_neighbor(a, e) && other.border(a, e) == l);
        }
        if other.interior(l) {
            let (a, e) = choose|a: int, e: Direction|
                other.is_cell(a) && other.has_neighbor(a, e) && #[trigger] other.border(a, e) == l;
            assert(self.is_cell(a) && self.has_neighbor(a, e) && self.border(a, e) == l);
        }
    }

    /// Hiding a standing wall between two cells adds that wall to the
    /// open passages, and nothing else.
    pub proof fn lemma_concealed_between(self, c: int, d: Direction)
        requires
            self.wf(),
            self.is_cell(c),
            self.has_neighbor(c, d),
            self.shown(c, d),
        ensures
            self.concealed(c, d).open_passages() == self.open_passages().insert(self.border(c, d)),
            !self.open_passages().contains(self.border(c, d)),
            self.concealed(c, d).open_passages().len() == self.open_passages().len() + 1,
            self.concealed(c, d).passage(c, self.neighbor(c, d)),
    {
        let after = self.concealed(c, d);
        let l = self.border(c, d);
        self.lemma_concealed(c, d);
        self.lemma_open_passages_finite();
        assert(0 <= l < self.segments.len());
        assert forall|m: int| self.interior(m) == after.interior(m) by {
            self.lemma_same_interior(after, m);
        }
        assert(self.interior(l));
        assert(after.open_passages() =~= self.open_passages().insert(l));
        assert(after.shown(c, d) <==> self.shown(c, d) && !((c == c && d == d) || self.twins(
            c,
            d,
            c,
            d,
        )));
        assert(after.open_toward(c, d));
    }

    /// Side `d` of cell `c` is one of the two gates of the maze: the left
    /// side of the first cell or the right side of the last one.
    pub open spec fn gate(self, c: int, d: Direction) -> bool {
        (c == 0 && d == Direction::Left) || (c == self.cells.len() - 1 && d == Direction::Right)
    }

    /// The grid with both gates open.
    pub open spec fn with_gates(self) -> Grid {
        self.concealed(0, Direction::Left).concealed(self.cells.len() - 1, Direction::Right)
    }

    /// Two neighbouring cells hold the same wall between them, so hiding
    /// it from one side hides it from the other.
    pub proof fn lemma_shared_wall(self, a: int, d: Direction)
        requires
            self.wf(),
            self.is_cell(a),
            self.has_neighbor(a, d),
        ensures
            self.is_cell(self.neighbor(a, d)),
            self.border(a, d) == self.border(self.neighbor(a, d), d.opposite()),
            !self.concealed(a, d).shown(a, d),
            !self.concealed(a, d).shown(self.neighbor(a, d), d.opposite()),
    {
        self.lemma_neighbor(a, d);
        self.lemma_concealed(a, d);
        assert(self.twins(a, d, self.neighbor(a, d), d.opposite()));
    }

    /// Opening the gates hides the two gate walls and nothing else, and
    /// opens no passage between cells.
    pub proof fn lemma_with_gates(self)
        requires
            self.wf(),
        ensures
            self.with_gates().wf(),
            self.with_gates().carved_from(self),
            self.with_gates().open_passages() == self.open_passages(),
            self.sealed() ==> self.with_gates().sealed(),
            forall|a: int, e: Direction|
                self.is_cell(a) ==> (#[trigger] self.with_gates().shown(a, e) <==> self.shown(a, e)
                    && !self.gate(a, e)),
    {
        let last = self.cells.len() - 1;
        let first = self.concealed(0, Direction::Left);
        self.lemma_corners();
        self.lemma_concealed(0, Direction::Left);
        self.lemma_concealed_edge(0, Direction::Left);
        assert(first.has_neighbor(last, Direction::Right) == self.has_neighbor(
            last,
            Direction::Right,
        ));
        first.lemma_concealed(last, Direction::Right);
        first.lemma_concealed_edge(last, Direction::Right);
        assert forall|a: int, e: Direction| self.is_cell(a) implies (#[trigger] self.with_gates().shown(
            a,
            e,
        ) <==> self.shown(a, e) && !self.gate(a, e)) by {
            assert(first.shown(a, e) <==> self.shown(a, e) && !((a == 0 && e == Direction::Left)
                || self.twins(0, Direction::Left, a, e)));
            assert(first.is_cell(a));
            assert(first.twins(last, Direction::Right, a, e) == self.twins(
                last,
                Direction::Right,
                a,
                e,
            ));
        }
    }
}

} // verus!
