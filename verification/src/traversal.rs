//! The traversal as mathematics: its state, its step, and why stepping
//! carves a spanning tree.
use vstd::prelude::*;
use vstd::set_lib::{lemma_int_range, lemma_len_subset, lemma_subset_equality, set_int_range};
use crate::layout::Grid;
use crate::shapes::Direction;

verus! {

/// The state of a traversal as plain mathematics: the cell it stands on,
/// a mark for each cell, and the branch points, oldest first.
#[verifier::ext_equal]
pub struct Traversal {
    pub current: int,
    pub visited: Seq<bool>,
    pub stack: Seq<int>,
}

impl Traversal {
    /// The traversal before its first step: at the first cell, nothing
    /// marked, no branch point.
    pub open spec fn start(grid: Grid) -> Traversal {
        Traversal {
            current: 0,
            visited: Seq::new(grid.cells.len(), |c: int| false),
            stack: Seq::empty(),
        }
    }

    /// The cells that have been marked as visited.
    pub open spec fn visited_cells(self) -> Set<int> {
        Set::new(|c: int| 0 <= c < self.visited.len() && self.visited[c])
    }

    /// Cell `c` has been reached: it is marked, or the traversal stands
    /// on it.
    pub open spec fn seen(self, c: int) -> bool {
        c == self.current || (0 <= c < self.visited.len() && self.visited[c])
    }

    /// Direction `d` leads from the current cell to an unvisited one.
    pub open spec fn free(self, grid: Grid, d: Direction) -> bool {
        grid.has_neighbor(self.current, d) && !self.visited[grid.neighbor(self.current, d)]
    }

    /// The directions in which the traversal can go on, in the fixed
    /// order of `Direction::all`.
    pub open spec fn candidates(self, grid: Grid) -> Seq<Direction> {
        Direction::all().filter(|d: Direction| self.free(grid, d))
    }

    /// Every cell is marked.
    pub open spec fn done(self) -> bool {
        self.visited_cells().len() == self.visited.len()
    }

    /// What is left to do: two for each unmarked cell, less one while the
    /// traversal stands on an unmarked cell.
    pub open spec fn pending(self) -> int {
        2 * (self.visited.len() - self.visited_cells().len()) - (if self.visited[self.current] {
            0int
        } else {
            1int
        })
    }

    /// Every marked cell that is neither current nor a branch point has
    /// no neighbour left to reach.
    pub open spec fn settled(self, grid: Grid) -> bool {
        forall|c: int, d: Direction|
            grid.is_cell(c) && self.visited[c] && c != self.current && !self.stack.contains(c)
                && #[trigger] grid.has_neighbor(c, d) ==> self.seen(grid.neighbor(c, d))
    }

    /// Passages lie between reached cells only.
    pub open spec fn explored(self, grid: Grid) -> bool {
        forall|c: int, d: Direction| #[trigger]
            grid.open_toward(c, d) ==> self.seen(c) && self.seen(grid.neighbor(c, d))
    }

    /// The traversal fits the grid: its branch points are marked cells,
    /// and the passages carved so far form a tree that spans exactly the
    /// cells reached so far.
    pub open spec fn wf(self, grid: Grid) -> bool {
        &&& grid.wf()
        &&& self.visited.len() == grid.cells.len()
        &&& grid.is_cell(self.current)
        &&& forall|i: int|
            0 <= i < self.stack.len() ==> grid.is_cell(#[trigger] self.stack[i])
                && self.visited[self.stack[i]]
        &&& self.settled(grid)
        &&& self.explored(grid)
        &&& grid.open_passages().len() + 1 == self.visited_cells().len() + (if self.visited[self.current] {
            0int
        } else {
            1int
        })
        &&& forall|c: int| grid.is_cell(c) && self.seen(c) ==> #[trigger] grid.connected(0, c)
    }

    /// One step of the traversal, given the number drawn for it.
    ///
    /// The current cell is marked. With nowhere to go on, the traversal
    /// returns to the latest branch point, if there is one. Otherwise it
    /// goes in the direction that `draw` selects among the candidates,
    /// through the wall on that side, and remembers the cell it leaves as
    /// a branch point if there was more than one candidate.
    pub open spec fn step(self, grid: Grid, draw: int) -> (Traversal, Grid) {
        let options = self.candidates(grid);
        let visited = self.visited.update(self.current, true);
        if options.len() == 0 {
            if self.stack.len() == 0 {
                (Traversal { visited, ..self }, grid)
            } else {
                (
                    Traversal {
                        current: self.stack.last(),
                        visited,
                        stack: self.stack.drop_last(),
                    },
                    grid,
                )
            }
        } else {
            let d = options[draw % (options.len() as int)];
            (
                Traversal {
                    current: grid.neighbor(self.current, d),
                    visited,
                    stack: if options.len() > 1 {
                        self.stack.push(self.current)
                    } else {
                        self.stack
                    },
                },
                grid.concealed(self.current, d),
            )
        }
    }

    /// The traversal and the grid after one step for each of `draws`, in
    /// their order.
    pub open spec fn after(self, grid: Grid, draws: Seq<int>) -> (Traversal, Grid)
        decreases draws.len(),
    {
        if draws.len() == 0 {
            (self, grid)
        } else {
            let (traversal, carved) = self.after(grid, draws.drop_last());
            traversal.step(carved, draws.last())
        }
    }

    /// Marking the current cell adds it to the marked cells; there are
    /// never more marked cells than cells.
    pub proof fn lemma_marked(self)
        requires
            0 <= self.current < self.visited.len(),
        ensures
            self.visited_cells().finite(),
            self.visited_cells().len() <= self.visited.len(),
            !self.visited[self.current] ==> self.visited_cells().len() < self.visited.len(),
            (Traversal { visited: self.visited.update(self.current, true), ..self }).visited_cells()
                == self.visited_cells().insert(self.current),
            self.visited_cells().insert(self.current).len() == self.visited_cells().len() + (
            if self.visited[self.current] {
                0int
            } else {
                1int
            }),
    {
        let all = set_int_range(0, self.visited.len() as int);
        let marked = Traversal { visited: self.visited.update(self.current, true), ..self };
        lemma_int_range(0, self.visited.len() as int);
        assert(self.visited_cells().subset_of(all));
        lemma_len_subset(self.visited_cells(), all);
        assert(marked.visited_cells() =~= self.visited_cells().insert(self.current));
        assert(marked.visited_cells().subset_of(all));
        lemma_len_subset(marked.visited_cells(), all);
    }

    /// The candidates are exactly the free directions.
    pub proof fn lemma_candidates(self, grid: Grid)
        ensures
            self.candidates(grid).len() <= 4,
            forall|i: int|
                0 <= i < self.candidates(grid).len() ==> self.free(
                    grid,
                    #[trigger] self.candidates(grid)[i],
                ),
            forall|d: Direction| #[trigger]
                self.free(grid, d) ==> self.candidates(grid).contains(d),
    {
        let pred = |d: Direction| self.free(grid, d);
        let all = Direction::all();
        all.lemma_filter_len(pred);
        assert forall|i: int| 0 <= i < self.candidates(grid).len() implies self.free(
            grid,
            #[trigger] self.candidates(grid)[i],
        ) by {
            all.lemma_filter_pred(pred, i);
        }
        assert forall|d: Direction| #[trigger] self.free(grid, d) implies self.candidates(
            grid,
        ).contains(d) by {
            assert(all[d.spec_idx()] == d);
            all.lemma_filter_contains(pred, d.spec_idx());
        }
    }
}

/// A set of cells that holds one cell, and with each of its cells every
/// neighbour of it, holds every cell: the grid is in one piece.
pub proof fn lemma_flood(grid: Grid, inside: Set<int>, from: int, to: int)
    requires
        grid.wf(),
        grid.is_cell(from),
        grid.is_cell(to),
        inside.contains(from),
        forall|c: int, d: Direction|
            grid.is_cell(c) && inside.contains(c) && #[trigger] grid.has_neighbor(c, d)
                ==> inside.contains(grid.neighbor(c, d)),
    ensures
        inside.contains(to),
    decreases
        (if grid.x(from) < grid.x(to) {
            grid.x(to) - grid.x(from)
        } else {
            grid.x(from) - grid.x(to)
        }) + (if grid.y(from) < grid.y(to) {
            grid.y(to) - grid.y(from)
        } else {
            grid.y(from) - grid.y(to)
        }),
{
    assert(grid.placed(from));
    assert(grid.placed(to));
    let toward = if grid.x(from) < grid.x(to) {
        Some(Direction::Right)
    } else if grid.x(from) > grid.x(to) {
        Some(Direction::Left)
    } else if grid.y(from) < grid.y(to) {
        Some(Direction::Down)
    } else if grid.y(from) > grid.y(to) {
        Some(Direction::Up)
    } else {
        None
    };
    match toward {
        Some(d) => {
            assert(grid.has_neighbor(from, d));
            grid.lemma_neighbor(from, d);
            lemma_flood(grid, inside, grid.neighbor(from, d), to);
        },
        None => {},
    }
}

impl Traversal {
    /// A traversal starts well on a grid without passages.
    pub proof fn lemma_start(grid: Grid)
        requires
            grid.wf(),
            grid.sealed(),
        ensures
            Traversal::start(grid).wf(grid),
            Traversal::start(grid).visited_cells() == Set::<int>::empty(),
    {
        let t = Traversal::start(grid);
        grid.lemma_corners();
        grid.lemma_sealed_empty();
        grid.lemma_connected_self(0);
        assert(t.visited_cells() =~= Set::<int>::empty());
    }

    /// With nowhere to go on and no branch point left, every cell is
    /// marked once the current one is.
    proof fn lemma_exhausted(self, grid: Grid, to: int)
        requires
            self.wf(grid),
            self.candidates(grid).len() == 0,
            self.stack.len() == 0,
            grid.is_cell(to),
        ensures
            to == self.current || self.visited[to],
    {
        let inside = Set::new(|c: int| grid.is_cell(c) && (c == self.current || self.visited[c]));
        self.lemma_candidates(grid);
        assert forall|c: int, d: Direction|
            grid.is_cell(c) && inside.contains(c) && #[trigger] grid.has_neighbor(
                c,
                d,
            ) implies inside.contains(grid.neighbor(c, d)) by {
            grid.lemma_neighbor(c, d);
            if c == self.current {
                if self.free(grid, d) {
                    assert(self.candidates(grid).contains(d));
                }
            } else {
                assert(!self.stack.contains(c));
            }
        }
        lemma_flood(grid, inside, self.current, to);
    }

    /// A step keeps the traversal well-formed and brings it closer to its
    /// end; it turns walls between cells into passages and changes
    /// nothing else.
    pub proof fn lemma_step(self, grid: Grid, draw: int)
        requires
            self.wf(grid),
            !self.done(),
            0 <= draw,
        ensures
            self.step(grid, draw).0.wf(self.step(grid, draw).1),
            self.step(grid, draw).1.carved_from(grid),
            0 <= self.step(grid, draw).0.pending(),
            self.step(grid, draw).0.pending() < self.pending() || (self.step(grid, draw).0.pending()
                == self.pending() && self.step(grid, draw).0.stack.len() < self.stack.len()),
            forall|a: int, e: Direction|
                grid.is_cell(a) && !grid.has_neighbor(a, e) ==> (#[trigger] self.step(
                    grid,
                    draw,
                ).1.shown(a, e) <==> grid.shown(a, e)),
            self.candidates(grid).len() > 0 ==> !self.seen(self.step(grid, draw).0.current),
            self.candidates(grid).len() == 0 && self.stack.len() == 0 ==> self.step(
                grid,
                draw,
            ).0.done(),
    {
        if self.candidates(grid).len() == 0 {
            self.lemma_step_back(grid, draw);
        } else {
            self.lemma_step_on(grid, draw);
        }
    }

    proof fn lemma_step_back(self, grid: Grid, draw: int)
        requires
            self.wf(grid),
            !self.done(),
            self.candidates(grid).len() == 0,
        ensures
            self.step(grid, draw).1 == grid,
            self.step(grid, draw).0.wf(grid),
            0 <= self.step(grid, draw).0.pending(),
            self.step(grid, draw).0.pending() < self.pending() || (self.step(grid, draw).0.pending()
                == self.pending() && self.step(grid, draw).0.stack.len() < self.stack.len()),
            self.stack.len() == 0 ==> self.step(grid, draw).0.done(),
    {
        let next = self.step(grid, draw).0;
        let c = self.current;
        self.lemma_marked();
        self.lemma_candidates(grid);
        assert(next.visited_cells() =~= self.visited_cells().insert(c));
        next.lemma_marked();
        if self.stack.len() == 0 {
            assert forall|to: int| 0 <= to < self.visited.len() implies next.visited_cells().contains(
                to,
            ) by {
                self.lemma_exhausted(grid, to);
            }
            lemma_int_range(0, self.visited.len() as int);
            assert(next.visited_cells() =~= set_int_range(0, self.visited.len() as int));
            assert(next.stack.len() == 0);
        } else {
            let p = self.stack.last();
            assert(grid.is_cell(self.stack[self.stack.len() - 1]));
            assert(self.visited[p]);
            assert forall|i: int| 0 <= i < next.stack.len() implies grid.is_cell(
                #[trigger] next.stack[i],
            ) && next.visited[next.stack[i]] by {
                assert(next.stack[i] == self.stack[i]);
            }
        }
        assert forall|k: int| self.seen(k) <==> next.seen(k) by {}
        assert forall|k: int, e: Direction|
            grid.is_cell(k) && next.visited[k] && k != next.current && !next.stack.contains(k)
                && #[trigger] grid.has_neighbor(k, e) implies next.seen(grid.neighbor(k, e)) by {
            grid.lemma_neighbor(k, e);
            if k == c {
                if self.free(grid, e) {
                    assert(self.candidates(grid).contains(e));
                }
            } else {
                if self.stack.contains(k) {
                    let i = choose|i: int| 0 <= i < self.stack.len() && self.stack[i] == k;
                    if i < self.stack.len() - 1 {
                        assert(next.stack[i] == k);
                    }
                }
                assert(self.seen(grid.neighbor(k, e)));
            }
        }
        assert forall|k: int, e: Direction| #[trigger] grid.open_toward(k, e) implies next.seen(k)
            && next.seen(grid.neighbor(k, e)) by {
            assert(self.seen(k) && self.seen(grid.neighbor(k, e)));
        }
        assert forall|k: int| grid.is_cell(k) && next.seen(k) implies #[trigger] grid.connected(
            0,
            k,
        ) by {
            assert(self.seen(k));
        }
    }

    proof fn lemma_step_on(self, grid: Grid, draw: int)
        requires
            self.wf(grid),
            0 <= draw,
            self.candidates(grid).len() > 0,
        ensures
            self.step(grid, draw).0.wf(self.step(grid, draw).1),
            self.step(grid, draw).1.carved_from(grid),
            0 <= self.step(grid, draw).0.pending() < self.pending(),
            forall|a: int, e: Direction|
                grid.is_cell(a) && !grid.has_neighbor(a, e) ==> (#[trigger] self.step(
                    grid,
                    draw,
                ).1.shown(a, e) <==> grid.shown(a, e)),
            !self.seen(self.step(grid, draw).0.current),
    {
        let (next, after) = self.step(grid, draw);
        let options = self.candidates(grid);
        let c = self.current;
        let d = options[draw % (options.len() as int)];
        let n = grid.neighbor(c, d);
        self.lemma_marked();
        self.lemma_candidates(grid);
        assert(self.free(grid, d));
        grid.lemma_neighbor(c, d);
        if !grid.shown(c, d) {
            assert(grid.open_toward(c, d));
        }
        grid.lemma_concealed(c, d);
        grid.lemma_concealed_between(c, d);
        assert(next.visited_cells() =~= self.visited_cells().insert(c));
        next.lemma_marked();

        assert forall|i: int| 0 <= i < next.stack.len() implies after.is_cell(
            #[trigger] next.stack[i],
        ) && next.visited[next.stack[i]] by {
            if i < self.stack.len() {
                assert(next.stack[i] == self.stack[i]);
            }
        }
        assert forall|k: int, e: Direction|
            after.is_cell(k) && next.visited[k] && k != next.current && !next.stack.contains(k)
                && #[trigger] after.has_neighbor(k, e) implies next.seen(
            after.neighbor(k, e),
        ) by {
            assert(grid.has_neighbor(k, e));
            grid.lemma_neighbor(k, e);
            if k == c {
                if options.len() > 1 {
                    assert(next.stack[self.stack.len() as int] == c);
                }
                if self.free(grid, e) {
                    assert(options.contains(e));
                }
            } else {
                if self.stack.contains(k) {
                    let i = choose|i: int| 0 <= i < self.stack.len() && self.stack[i] == k;
                    assert(next.stack[i] == k);
                }
                assert(self.seen(grid.neighbor(k, e)));
            }
        }
        assert forall|k: int, e: Direction| #[trigger] after.open_toward(k, e) implies next.seen(k)
            && next.seen(after.neighbor(k, e)) by {
            assert(after.shown(k, e) <==> grid.shown(k, e) && !((k == c && e == d) || grid.twins(
                c,
                d,
                k,
                e,
            )));
            if !grid.shown(k, e) {
                assert(grid.open_toward(k, e));
            }
        }
        assert forall|k: int| after.is_cell(k) && next.seen(k) implies #[trigger] after.connected(
            0,
            k,
        ) by {
            assert(self.seen(c));
            assert(grid.connected(0, c));
            if k == n {
                after.lemma_carved_connected(grid, 0, c);
                after.lemma_connected_on(0, c, n);
            } else {
                assert(self.seen(k));
                assert(grid.connected(0, k));
                after.lemma_carved_connected(grid, 0, k);
            }
        }
        assert forall|a: int, e: Direction|
            grid.is_cell(a) && !grid.has_neighbor(a, e) implies (#[trigger] after.shown(a, e)
            <==> grid.shown(a, e)) by {
            assert(after.shown(a, e) <==> grid.shown(a, e) && !((a == c && e == d) || grid.twins(
                c,
                d,
                a,
                e,
            )));
        }
    }

    /// When every cell is marked, the passages form a spanning tree.
    pub proof fn lemma_done_perfect(self, grid: Grid)
        requires
            self.wf(grid),
            self.done(),
        ensures
            grid.perfect(),
            forall|c: int| grid.is_cell(c) ==> self.visited[c],
    {
        let all = set_int_range(0, self.visited.len() as int);
        lemma_int_range(0, self.visited.len() as int);
        self.lemma_marked();
        assert(self.visited_cells().subset_of(all));
        lemma_subset_equality(self.visited_cells(), all);
        assert forall|c: int| grid.is_cell(c) implies self.visited[c] by {
            assert(all.contains(c));
            assert(self.visited_cells().contains(c));
        }
        grid.lemma_open_passages_finite();
        assert forall|a: int, b: int| grid.is_cell(a) && grid.is_cell(b) implies #[trigger] grid.connected(
            a,
            b,
        ) by {
            assert(self.seen(a) && self.seen(b));
            assert(grid.connected(0, a));
            assert(grid.connected(0, b));
            grid.lemma_connected_back(0, a);
            grid.lemma_connected_through(a, 0, b);
        }
    }
}

/// Runs that start alike and are fed the same draws are alike at every
/// step: the draws are all that a run depends on.
pub proof fn lemma_same_draws_same_run(
    one: Seq<(Traversal, Grid)>,
    other: Seq<(Traversal, Grid)>,
    draws: Seq<int>,
    k: int,
)
    requires
        one.len() == draws.len() + 1,
        other.len() == draws.len() + 1,
        one[0] == other[0],
        forall|i: int|
            0 <= i < draws.len() ==> #[trigger] one[i + 1] == one[i].0.step(one[i].1, draws[i]),
        forall|i: int|
            0 <= i < draws.len() ==> #[trigger] other[i + 1] == other[i].0.step(
                other[i].1,
                draws[i],
            ),
        0 <= k <= draws.len(),
    ensures
        one[k] == other[k],
        one[k].1.open_passages() == other[k].1.open_passages(),
    decreases k,
{
    if k > 0 {
        lemma_same_draws_same_run(one, other, draws, k - 1);
        assert(one[k - 1 + 1] == one[k - 1].0.step(one[k - 1].1, draws[k - 1]));
        assert(other[k - 1 + 1] == other[k - 1].0.step(other[k - 1].1, draws[k - 1]));
    }
}

} // verus!
