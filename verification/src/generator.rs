//! The maze generator: a randomized depth-first traversal that carves a
//! spanning tree of passages into a walled grid.
use vstd::prelude::*;
use crate::grid::Labyrinth;
use crate::layout::{lemma_fits, Grid};
use crate::shapes::Direction;
use crate::traversal::Traversal;

verus! {

/// The state of a traversal: where it stands, which cells it has marked,
/// and the branch points it may still return to.
#[derive(Debug)]
pub struct Generator {
    current: usize,
    visited: Vec<bool>,
    visited_count: usize,
    stack: Vec<usize>,
}

impl View for Generator {
    type V = Traversal;

    closed spec fn view(&self) -> Traversal {
        Traversal {
            current: self.current as int,
            visited: self.visited@,
            stack: self.stack@.map_values(|c: usize| c as int),
        }
    }
}

/// A number from the thread-local generator of the `rand` crate, by
/// `rand::random`. Nothing is claimed of it: any `usize` may come back.
#[verifier::external_body]
fn random_draw() -> usize {
    rand::random::<usize>()
}

impl Generator {
    /// The counter of marked cells agrees with the marks.
    pub closed spec fn counted(&self) -> bool {
        self.visited_count == self@.visited_cells().len()
    }

    /// The generator fits the grid it works on.
    pub open spec fn wf(&self, grid: Grid) -> bool {
        self@.wf(grid) && self.counted()
    }

    /// A traversal about to start at the first cell of a grid in which no
    /// passage between cells is open yet.
    pub fn new(labyrinth: &Labyrinth) -> (generator: Generator)
        requires
            labyrinth@.wf(),
            labyrinth@.sealed(),
        ensures
            generator@ == Traversal::start(labyrinth@),
            generator.wf(labyrinth@),
    {
        proof {
            lemma_fits(labyrinth@.side);
            Traversal::lemma_start(labyrinth@);
        }
        let total: usize = labyrinth.size() * labyrinth.size();
        let mut visited: Vec<bool> = Vec::new();
        let mut i: usize = 0;
        while i < total
            invariant
                i <= total,
                visited.len() == i,
                forall|c: int| 0 <= c < i ==> !(#[trigger] visited@[c]),
            decreases total - i,
        {
            visited.push(false);
            i += 1;
        }
        let generator = Generator { current: 0, visited, visited_count: 0, stack: Vec::new() };
        proof {
            assert(generator@.visited =~= Traversal::start(labyrinth@).visited);
            assert(generator@.stack =~= Traversal::start(labyrinth@).stack);
            assert(generator@ =~= Traversal::start(labyrinth@));
        }
        generator
    }

    /// Index of the cell on which the traversal stands.
    pub fn current(&self) -> (cell: usize)
        ensures
            cell == self@.current,
    {
        self.current
    }

    /// Number of cells marked so far.
    pub fn visited_count(&self) -> (count: usize)
        requires
            self.counted(),
        ensures
            count == self@.visited_cells().len(),
    {
        self.visited_count
    }

    /// Number of branch points that the traversal may still return to.
    pub fn depth(&self) -> (depth: usize)
        ensures
            depth == self@.stack.len(),
    {
        self.stack.len()
    }

    /// Whether every cell is marked.
    pub fn is_done(&self) -> (done: bool)
        requires
            self.counted(),
        ensures
            done == self@.done(),
    {
        self.visited_count == self.visited.len()
    }

    /// The directions in which the traversal can go on from the current
    /// cell, each with the unvisited neighbour it leads to, in the fixed
    /// order of `Direction::iter`.
    pub fn candidates(&self, labyrinth: &Labyrinth) -> (options: Vec<(Direction, usize)>)
        requires
            self.wf(labyrinth@),
        ensures
            options@.len() == self@.candidates(labyrinth@).len(),
            forall|i: int|
                0 <= i < options@.len() ==> (#[trigger] options@[i]).0 == self@.candidates(
                    labyrinth@,
                )[i] && options@[i].1 == labyrinth@.neighbor(self@.current, options@[i].0),
    {
        let ghost grid = labyrinth@;
        let ghost pred = |d: Direction| self@.free(grid, d);
        let all = Direction::iter();
        let field = labyrinth.cell(self.current);
        let mut options: Vec<(Direction, usize)> = Vec::new();
        let mut i: usize = 0;
        proof {
            assert(grid.placed(self@.current));
            assert(all@.take(0) =~= Seq::empty());
            reveal(Seq::filter);
        }
        while i < 4
            invariant
                i <= 4,
                all@ == Direction::all(),
                self.wf(labyrinth@),
                grid == labyrinth@,
                pred == (|d: Direction| self@.free(grid, d)),
                *field == grid.cells[self@.current],
                options@.len() == all@.take(i as int).filter(pred).len(),
                forall|j: int|
                    0 <= j < options@.len() ==> (#[trigger] options@[j]).0 == all@.take(
                        i as int,
                    ).filter(pred)[j] && options@[j].1 == grid.neighbor(
                        self@.current,
                        options@[j].0,
                    ),
            decreases 4 - i,
        {
            let direction = all[i];
            proof {
                all@.take(i as int).lemma_filter_push(direction, pred);
                assert(all@.take(i as int).push(direction) =~= all@.take(i + 1));
            }
            match field.move_to(labyrinth, &direction) {
                Some(next) => {
                    proof {
                        assert(grid.has_neighbor(self@.current, direction));
                        grid.lemma_neighbor(self@.current, direction);
                    }
                    let cell: usize = labyrinth.position(next);
                    if !self.visited[cell] {
                        options.push((direction, cell));
                    }
                },
                None => {},
            }
            i += 1;
        }
        proof {
            assert(all@.take(4) =~= all@);
        }
        options
    }

    /// One step of the traversal with `draw` as the number drawn for it;
    /// see `Traversal::step`.
    pub fn step(&mut self, labyrinth: &mut Labyrinth, draw: usize)
        requires
            old(self).wf(old(labyrinth)@),
            !old(self)@.done(),
        ensures
            final(self).wf(final(labyrinth)@),
            final(self)@ == old(self)@.step(old(labyrinth)@, draw as int).0,
            final(labyrinth)@ == old(self)@.step(old(labyrinth)@, draw as int).1,
    {
        let options = self.candidates(labyrinth);
        self.advance(labyrinth, options, draw);
    }

    /// The step proper, once the candidates are known.
    fn advance(&mut self, labyrinth: &mut Labyrinth, options: Vec<(Direction, usize)>, draw: usize)
        requires
            old(self).wf(old(labyrinth)@),
            !old(self)@.done(),
            options@.len() == old(self)@.candidates(old(labyrinth)@).len(),
            forall|i: int|
                0 <= i < options@.len() ==> (#[trigger] options@[i]).0 == old(self)@.candidates(
                    old(labyrinth)@,
                )[i] && options@[i].1 == old(labyrinth)@.neighbor(
                    old(self)@.current,
                    options@[i].0,
                ),
        ensures
            final(self).wf(final(labyrinth)@),
            final(self)@ == old(self)@.step(old(labyrinth)@, draw as int).0,
            final(labyrinth)@ == old(self)@.step(old(labyrinth)@, draw as int).1,
    {
        let ghost before = self@;
        let ghost grid = labyrinth@;
        proof {
            before.lemma_step(grid, draw as int);
            before.lemma_marked();
            before.lemma_candidates(grid);
        }
        let here: usize = self.current;
        if !self.visited[here] {
            assert(self.visited_count < self.visited.len());
            self.visited[here] = true;
            self.visited_count += 1;
        }
        assert(self.visited@ =~= before.visited.update(before.current, true));
        if options.len() == 0 {
            match self.stack.pop() {
                Some(cell) => {
                    self.current = cell;
                },
                None => {},
            }
            proof {
                assert(self@.stack =~= before.step(grid, draw as int).0.stack);
                assert(self@ =~= before.step(grid, draw as int).0);
            }
        } else {
            if options.len() > 1 {
                self.stack.push(here);
            }
            let (direction, next) = options[draw % options.len()];
            labyrinth.conceal(here, &direction);
            self.current = next;
            proof {
                assert(self@.stack =~= before.step(grid, draw as int).0.stack);
                assert(self@ =~= before.step(grid, draw as int).0);
            }
        }
    }

    /// Runs the traversal to its end, drawing a random number wherever
    /// there is a choice to make. Afterwards every cell is marked.
    pub fn run(&mut self, labyrinth: &mut Labyrinth)
        requires
            old(self).wf(old(labyrinth)@),
        ensures
            final(self).wf(final(labyrinth)@),
            final(self)@.done(),
            exists|draws: Seq<int>| #[trigger]
                old(self)@.after(old(labyrinth)@, draws) == (final(self)@, final(labyrinth)@),
            final(labyrinth)@.carved_from(old(labyrinth)@),
            forall|a: int, e: Direction|
                old(labyrinth)@.is_cell(a) && !old(labyrinth)@.has_neighbor(a, e) ==> (
                #[trigger] final(labyrinth)@.shown(a, e) <==> old(labyrinth)@.shown(a, e)),
    {
        let ghost start = labyrinth@;
        let ghost first = self@;
        let ghost mut draws: Seq<int> = Seq::empty();
        while self.visited_count < self.visited.len()
            invariant
                self.wf(labyrinth@),
                first.after(start, draws) == (self@, labyrinth@),
                labyrinth@.carved_from(start),
                forall|a: int, e: Direction|
                    start.is_cell(a) && !start.has_neighbor(a, e) ==> (#[trigger] labyrinth@.shown(
                        a,
                        e,
                    ) <==> start.shown(a, e)),
            decreases self@.pending(), self@.stack.len(),
        {
            let ghost before = self@;
            let ghost grid = labyrinth@;
            let options = self.candidates(labyrinth);
            let draw: usize = if options.len() > 0 {
                random_draw()
            } else {
                0
            };
            proof {
                before.lemma_step(grid, draw as int);
            }
            self.advance(labyrinth, options, draw);
            proof {
                assert(draws.push(draw as int).drop_last() =~= draws);
                draws = draws.push(draw as int);
                assert forall|a: int, e: Direction|
                    start.is_cell(a) && !start.has_neighbor(a, e) implies (
                #[trigger] labyrinth@.shown(a, e) <==> start.shown(a, e)) by {
                    assert(grid.is_cell(a) && !grid.has_neighbor(a, e));
                    assert(grid.shown(a, e) <==> start.shown(a, e));
                }
            }
        }
        proof {
            self@.lemma_marked();
        }
    }
}

/// Opens the two gates of the maze: the left wall of the first cell and
/// the right wall of the last one.
pub fn open_entrances(labyrinth: &mut Labyrinth)
    requires
        old(labyrinth)@.wf(),
    ensures
        final(labyrinth)@ == old(labyrinth)@.with_gates(),
        final(labyrinth)@.wf(),
{
    proof {
        lemma_fits(labyrinth@.side);
        labyrinth@.lemma_corners();
        labyrinth@.lemma_with_gates();
    }
    let last: usize = labyrinth.size() * labyrinth.size() - 1;
    labyrinth.conceal(0, &Direction::Left);
    labyrinth.conceal(last, &Direction::Right);
}

/// Carves a perfect maze into a fully walled grid.
///
/// The two gates are opened, then a traversal is run from the first cell
/// to its end. Afterwards the passages between cells form a spanning
/// tree of the grid, and of the walls at the edge of the grid only the
/// two gates are hidden.
pub fn generate(labyrinth: &mut Labyrinth)
    requires
        old(labyrinth)@.wf(),
        old(labyrinth)@.walled(),
    ensures
        final(labyrinth)@.wf(),
        final(labyrinth)@.carved_from(old(labyrinth)@),
        final(labyrinth)@.perfect(),
        forall|c: int, d: Direction|
            old(labyrinth)@.is_cell(c) && !old(labyrinth)@.has_neighbor(c, d) ==> (
            #[trigger] final(labyrinth)@.shown(c, d) <==> !old(labyrinth)@.gate(c, d)),
        exists|draws: Seq<int>| (#[trigger] Traversal::start(old(labyrinth)@.with_gates()).after(
                old(labyrinth)@.with_gates(),
                draws,
            )).1 == final(labyrinth)@,
{
    let ghost walled = labyrinth@;
    proof {
        walled.lemma_with_gates();
        assert forall|c: int, d: Direction|
            walled.is_cell(c) && #[trigger] walled.has_neighbor(c, d) implies walled.shown(
            c,
            d,
        ) by {
            assert(0 <= walled.border(c, d) < walled.segments.len());
        }
    }
    open_entrances(labyrinth);
    let ghost gated = labyrinth@;
    let mut generator = Generator::new(labyrinth);
    generator.run(labyrinth);
    proof {
        generator@.lemma_done_perfect(labyrinth@);
        assert forall|c: int, d: Direction|
            walled.is_cell(c) && !walled.has_neighbor(c, d) implies (#[trigger] labyrinth@.shown(
            c,
            d,
        ) <==> !walled.gate(c, d)) by {
            assert(gated.is_cell(c) && !gated.has_neighbor(c, d));
            assert(gated.shown(c, d) <==> walled.shown(c, d) && !walled.gate(c, d));
            assert(0 <= walled.border(c, d) < walled.segments.len());
        }
    }
}

} // verus!
