//! The grid model: cells laid out row by row, walls held once in an arena.
use vstd::prelude::*;
use image::Rgb;
use crate::layout::{
    lemma_fits, lemma_index_bound, lemma_index_row, lemma_index_unique,
    lemma_wall_from_either_side, Grid,
};
use crate::shapes::{Direction, Line, Point};
use crate::{MULTIPLIER, OFFSET};

verus! {

/// One grid position: where it lies, and which wall of the arena stands on
/// each of its four sides, indexed by `Direction::idx`.
#[derive(Clone, Copy, Debug, PartialEq, Eq, Hash)]
pub struct Field {
    pub borders: [usize; 4],
    pub point: Point,
}

/// Why a grid of some side length cannot be built.
#[derive(Clone, Copy, Debug, PartialEq, Eq, Structural)]
pub enum ConfigError {
    /// The side length is zero.
    Empty,
    /// The grid's walls cannot be counted or placed on this machine.
    TooLarge,
}

/// A square grid of cells and the walls between and around them.
///
/// Cells are stored row by row: the cell at `(x, y)` has index
/// `y * size + x`. Every wall is stored once; two neighbouring cells hold
/// the same arena index for the wall between them.
#[derive(Debug)]
pub struct Labyrinth {
    fields: Vec<Field>,
    size: usize,
    lines: Vec<Line>,
}

impl View for Labyrinth {
    type V = Grid;

    closed spec fn view(&self) -> Grid {
        Grid { side: self.size as int, cells: self.fields@, segments: self.lines@ }
    }
}

impl Field {
    /// A cell at `point` whose walls are the arena entries `borders`.
    pub fn new(point: Point, borders: [usize; 4]) -> (field: Field)
        ensures
            field == (Field { borders, point }),
    {
        Field { borders, point }
    }

    /// The cell of `labyrinth` one step from this one in `direction`, or
    /// `None` where the grid ends.
    pub fn move_to<'a>(&self, labyrinth: &'a Labyrinth, direction: &Direction) -> (next: Option<
        &'a Field,
    >)
        requires
            labyrinth@.wf(),
        ensures
            next is Some <==> labyrinth@.in_bounds(
                self.point.0 + direction.dx(),
                self.point.1 + direction.dy(),
            ),
            next matches Some(f) ==> {
                &&& *f == labyrinth@.cells[labyrinth@.index(
                    self.point.0 + direction.dx(),
                    self.point.1 + direction.dy(),
                )]
                &&& f.point == Point(
                    (self.point.0 + direction.dx()) as i32,
                    (self.point.1 + direction.dy()) as i32,
                )
            },
    {
        let (dx, dy) = direction.relative();
        let x: i64 = self.point.0 as i64 + dx as i64;
        let y: i64 = self.point.1 as i64 + dy as i64;
        let side: i64 = labyrinth.size as i64;
        if 0 <= x && x < side && 0 <= y && y < side {
            proof {
                assert(labyrinth.size <= i32::MAX);
                assert(side == labyrinth@.side);
                lemma_index_bound(side as int, x as int, y as int);
                assert(labyrinth@.index(x as int, y as int) == y * side + x);
                labyrinth@.lemma_cell_at(x as int, y as int);
                assert(side * side == labyrinth.fields@.len());
                lemma_fits(side as int);
                assert((y as usize) * labyrinth.size == y * side);
            }
            let at: usize = (y as usize) * labyrinth.size + (x as usize);
            Some(&labyrinth.fields[at])
        } else {
            None
        }
    }
}

/// The strokes that the standing walls among `segments` give, in arena
/// order: end points and colour of each.
pub open spec fn strokes(segments: Seq<Line>) -> Seq<(Point, Point, Rgb<u8>)> {
    segments.filter(|l: Line| l.shown).map_values(|l: Line| (l.start, l.end, l.color))
}

/// One more segment adds its stroke behind the others if it stands.
proof fn lemma_strokes_push(segments: Seq<Line>, last: Line)
    ensures
        strokes(segments.push(last)) == if last.shown {
            strokes(segments).push((last.start, last.end, last.color))
        } else {
            strokes(segments)
        },
{
    reveal(Seq::filter);
    let all = segments.push(last);
    assert(all.drop_last() =~= segments);
    let kept = segments.filter(|l: Line| l.shown);
    if last.shown {
        assert(kept.push(last).map_values(|l: Line| (l.start, l.end, l.color)) =~= strokes(
            segments,
        ).push((last.start, last.end, last.color)));
    }
}

impl Labyrinth {
    /// A fully walled grid of `size * size` cells.
    ///
    /// Cells are made row by row. Each makes the walls below it and to its
    /// right; the wall above it and the wall to its left it takes from the
    /// neighbour that made them, or makes itself where the grid ends.
    pub fn new(size: usize) -> (made: Result<Labyrinth, ConfigError>)
        ensures
            match made {
                Ok(labyrinth) => {
                    &&& size >= 1
                    &&& Grid::fits(size as int)
                    &&& labyrinth@.side == size
                    &&& labyrinth@.wf()
                    &&& labyrinth@.walled()
                    &&& labyrinth@.pristine()
                    &&& labyrinth@.ordered()
                },
                Err(ConfigError::Empty) => size == 0,
                Err(ConfigError::TooLarge) => size >= 1 && !Grid::fits(size as int),
            },
    {
        if size == 0 {
            return Err(ConfigError::Empty);
        }
        // The largest side whose last wall still has an `i32` coordinate.
        let limit: usize = (0x7fff_ffff - OFFSET) / MULTIPLIER;
        if size > limit {
            return Err(ConfigError::TooLarge);
        }
        assert(2 * size * (size + 1) <= 2 * i32::MAX * (i32::MAX + 1)) by (nonlinear_arith)
            requires
                0 <= size <= i32::MAX,
        ;
        let walls: u64 = 2 * (size as u64) * (size as u64 + 1);
        if walls > usize::MAX as u64 {
            return Err(ConfigError::TooLarge);
        }
        proof {
            lemma_fits(size as int);
        }
        let mut fields: Vec<Field> = Vec::new();
        let mut lines: Vec<Line> = Vec::new();
        let mut x: usize = 0;
        let mut y: usize = 0;
        while y < size
            invariant
                1 <= size,
                Grid::fits(size as int),
                size * size <= usize::MAX,
                y <= size,
                x < size,
                y == size ==> x == 0,
                fields.len() == y * size + x,
                lines.len() == 2 * fields.len() + (if y == 0 {
                    x
                } else {
                    size
                }) + y + (if x > 0 {
                    1int
                } else {
                    0int
                }),
                (Grid { side: size as int, cells: fields@, segments: lines@ }).structure_ok(),
                (Grid { side: size as int, cells: fields@, segments: lines@ }).walled(),
                (Grid { side: size as int, cells: fields@, segments: lines@ }).pristine(),
                (Grid { side: size as int, cells: fields@, segments: lines@ }).ordered(),
            decreases size * size - fields.len(),
        {
            let ghost before = Grid { side: size as int, cells: fields@, segments: lines@ };
            proof {
                lemma_index_bound(size as int, x as int, y as int);
                lemma_index_row(size as int, y as int);
            }
            let k: usize = fields.len();
            let point = Point::new(x, y);
            let up: usize = if y != 0 {
                fields[k - size].borders[Direction::Down.idx()]
            } else {
                let made: usize = lines.len();
                lines.push(Line::new(point, Direction::Up, None));
                made
            };
            let down: usize = lines.len();
            lines.push(Line::new(point, Direction::Down, None));
            let left: usize = if x != 0 {
                fields[k - 1].borders[Direction::Right.idx()]
            } else {
                let made: usize = lines.len();
                lines.push(Line::new(point, Direction::Left, None));
                made
            };
            let right: usize = lines.len();
            lines.push(Line::new(point, Direction::Right, None));
            fields.push(Field::new(point, [up, down, left, right]));
            x += 1;
            if x == size {
                x = 0;
                y += 1;
            }
            proof {
                let after = Grid { side: size as int, cells: fields@, segments: lines@ };
                let (px, py) = (point.0 as int, point.1 as int);
                assert(after.grown_from(before, px, py));
                after.lemma_grow(before, px, py);
                assert forall|l: int| 0 <= l < after.segments.len() implies (
                #[trigger] after.segments[l]).shown by {
                    if l < before.segments.len() {
                        assert(before.segments[l].shown);
                    }
                }
                assert forall|c: int| after.is_cell(c) implies #[trigger] after.in_order(c) by {
                    if c < k {
                        assert(before.in_order(c));
                    } else {
                        assert(after.x(c) == px && after.y(c) == py);
                        assert(after.index(px, py) == k);
                        assert(after.made_before(px, py) == before.segments.len());
                    }
                }
                assert forall|c: int, d: Direction| after.is_cell(c) implies after.segments[
                #[trigger] after.border(c, d)] == Line::spec_new(after.cells[c].point, d, None) by {
                    if c < k {
                        assert(0 <= before.border(c, d) < before.segments.len());
                    } else if d == Direction::Up && py > 0 {
                        let above = before.cells[k - size].point;
                        assert(0 <= before.border(k - size, Direction::Down)
                            < before.segments.len());
                        assert(before.placed(k - size));
                        lemma_index_unique(
                            size as int,
                            px,
                            py - 1,
                            before.x(k - size),
                            before.y(k - size),
                        );
                        lemma_wall_from_either_side(size as int, above, Direction::Down, point, None);
                    } else if d == Direction::Left && px > 0 {
                        let beside = before.cells[k - 1].point;
                        assert(0 <= before.border(k - 1, Direction::Right) < before.segments.len());
                        assert(before.placed(k - 1));
                        lemma_index_unique(
                            size as int,
                            px - 1,
                            py,
                            before.x(k - 1),
                            before.y(k - 1),
                        );
                        lemma_wall_from_either_side(
                            size as int,
                            beside,
                            Direction::Right,
                            point,
                            None,
                        );
                    } else {
                        match d {
                            Direction::Up => {},
                            Direction::Down => {},
                            Direction::Left => {},
                            Direction::Right => {},
                        }
                    }
                }
            }
        }
        let labyrinth = Labyrinth { fields, size, lines };
        proof {
            assert(2 * (size * size) + size + size == 2 * size * (size + 1)) by (nonlinear_arith);
        }
        Ok(labyrinth)
    }

    /// Side length of the grid.
    pub fn size(&self) -> (side: usize)
        ensures
            side == self@.side,
    {
        self.size
    }

    /// The cell with the given index; `(x, y)` has index `y * size + x`.
    pub fn cell(&self, index: usize) -> (field: &Field)
        requires
            self@.is_cell(index as int),
        ensures
            *field == self@.cells[index as int],
    {
        &self.fields[index]
    }

    /// The cell at `(x, y)`.
    pub fn field(&self, x: usize, y: usize) -> (field: &Field)
        requires
            self@.wf(),
            self@.in_bounds(x as int, y as int),
        ensures
            *field == self@.cells[self@.index(x as int, y as int)],
            field.point == Point(x as i32, y as i32),
    {
        proof {
            lemma_fits(self@.side);
            lemma_index_bound(self@.side, x as int, y as int);
            self@.lemma_cell_at(x as int, y as int);
        }
        &self.fields[y * self.size + x]
    }

    /// Index of the cell that lies where `field` says it does.
    pub fn position(&self, field: &Field) -> (index: usize)
        requires
            self@.wf(),
            self@.in_bounds(field.point.0 as int, field.point.1 as int),
        ensures
            index == self@.index(field.point.0 as int, field.point.1 as int),
            self@.is_cell(index as int),
    {
        proof {
            lemma_fits(self@.side);
            lemma_index_bound(self@.side, field.point.0 as int, field.point.1 as int);
        }
        (field.point.1 as usize) * self.size + (field.point.0 as usize)
    }

    /// Every wall of the grid, each once, in the order in which they were
    /// made.
    pub fn lines(&self) -> (all: &Vec<Line>)
        ensures
            all@ == self@.segments,
    {
        &self.lines
    }

    /// Whether the wall on the `direction` side of cell `cell` stands.
    pub fn is_shown(&self, cell: usize, direction: &Direction) -> (shown: bool)
        requires
            self@.wf(),
            self@.is_cell(cell as int),
        ensures
            shown == self@.shown(cell as int, *direction),
    {
        let at: usize = self.fields[cell].borders[direction.idx()];
        assert(at == self@.border(cell as int, *direction));
        self.lines[at].shown
    }

    /// Turns the wall on the `direction` side of cell `cell` into a
    /// passage, for the cell on its other side too.
    pub fn conceal(&mut self, cell: usize, direction: &Direction)
        requires
            old(self)@.wf(),
            old(self)@.is_cell(cell as int),
        ensures
            final(self)@ == old(self)@.concealed(cell as int, *direction),
            final(self)@.wf(),
    {
        let at: usize = self.fields[cell].borders[direction.idx()];
        assert(at == self@.border(cell as int, *direction));
        self.lines[at].conceal();
        proof {
            assert(self@.segments =~= old(self)@.concealed(cell as int, *direction).segments);
            self@.lemma_same_layout(old(self)@);
        }
    }

    /// Whether every wall of the grid stands.
    pub fn is_walled(&self) -> (walled: bool)
        ensures
            walled == self@.walled(),
    {
        let mut i: usize = 0;
        while i < self.lines.len()
            invariant
                i <= self.lines.len(),
                forall|l: int| 0 <= l < i ==> (#[trigger] self.lines@[l]).shown,
            decreases self.lines.len() - i,
        {
            if !self.lines[i].shown {
                assert(!self@.segments[i as int].shown);
                return false;
            }
            i += 1;
        }
        true
    }

    /// The strokes to put on a drawing surface: one for each wall that
    /// stands, none for a passage.
    pub fn draw(&self) -> (out: Vec<(Point, Point, Rgb<u8>)>)
        ensures
            out@ == strokes(self@.segments),
    {
        let mut out: Vec<(Point, Point, Rgb<u8>)> = Vec::new();
        let mut i: usize = 0;
        proof {
            reveal(Seq::filter);
            assert(self.lines@.take(0) =~= Seq::empty());
            assert(out@ =~= strokes(self.lines@.take(0)));
        }
        while i < self.lines.len()
            invariant
                i <= self.lines.len(),
                out@ == strokes(self.lines@.take(i as int)),
            decreases self.lines.len() - i,
        {
            proof {
                lemma_strokes_push(self.lines@.take(i as int), self.lines@[i as int]);
                assert(self.lines@.take(i as int).push(self.lines@[i as int]) =~= self.lines@.take(
                    i + 1,
                ));
            }
            match self.lines[i].draw() {
                Some(stroke) => {
                    out.push(stroke);
                },
                None => {},
            }
            i += 1;
        }
        assert(self.lines@.take(i as int) =~= self.lines@);
        out
    }
}

} // verus!
