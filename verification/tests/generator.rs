use labyrinth::generator::{generate, open_entrances, Generator};
use labyrinth::grid::Labyrinth;
use labyrinth::shapes::{Direction, Line};
use rand::rngs::StdRng;
use rand::{Rng, SeedableRng};

fn build(size: usize) -> Labyrinth {
    match Labyrinth::new(size) {
        Ok(labyrinth) => labyrinth,
        Err(error) => panic!("a grid of side {} was refused: {:?}", size, error),
    }
}

fn neighbour(labyrinth: &Labyrinth, cell: usize, direction: &Direction) -> Option<usize> {
    labyrinth.cell(cell).move_to(labyrinth, direction).map(|field| labyrinth.position(field))
}

/// Number of hidden walls that stand between two cells.
fn open_passages(labyrinth: &Labyrinth) -> usize {
    let cells = labyrinth.size() * labyrinth.size();
    let mut open = 0;
    for cell in 0..cells {
        for direction in [Direction::Down, Direction::Right] {
            if neighbour(labyrinth, cell, &direction).is_some()
                && !labyrinth.is_shown(cell, &direction)
            {
                open += 1;
            }
        }
    }
    open
}

/// Number of cells that can be reached from the first one through passages.
fn reachable(labyrinth: &Labyrinth) -> usize {
    let cells = labyrinth.size() * labyrinth.size();
    let mut reached = vec![false; cells];
    let mut queue = vec![0usize];
    reached[0] = true;
    let mut count = 1;
    while let Some(cell) = queue.pop() {
        for direction in Direction::iter() {
            if let Some(next) = neighbour(labyrinth, cell, &direction) {
                if !labyrinth.is_shown(cell, &direction) && !reached[next] {
                    reached[next] = true;
                    count += 1;
                    queue.push(next);
                }
            }
        }
    }
    count
}

fn is_gate(labyrinth: &Labyrinth, cell: usize, direction: &Direction) -> bool {
    let last = labyrinth.size() * labyrinth.size() - 1;
    (cell == 0 && *direction == Direction::Left) || (cell == last && *direction == Direction::Right)
}

fn check_perfect(labyrinth: &Labyrinth) {
    let cells = labyrinth.size() * labyrinth.size();
    assert_eq!(open_passages(labyrinth), cells - 1);
    assert_eq!(reachable(labyrinth), cells);
    for cell in 0..cells {
        for direction in Direction::iter() {
            if neighbour(labyrinth, cell, &direction).is_none() {
                assert_eq!(
                    labyrinth.is_shown(cell, &direction),
                    !is_gate(labyrinth, cell, &direction)
                );
            }
        }
    }
}

/// Runs a traversal to its end with the draws of a seeded generator and
/// gives back the number of steps it took.
fn run_seeded(labyrinth: &mut Labyrinth, seed: u64) -> usize {
    let mut rng = StdRng::seed_from_u64(seed);
    open_entrances(labyrinth);
    let mut generator = Generator::new(labyrinth);
    let mut steps = 0;
    while !generator.is_done() {
        generator.step(labyrinth, rng.gen::<usize>());
        steps += 1;
    }
    assert_eq!(generator.visited_count(), labyrinth.size() * labyrinth.size());
    steps
}

#[test]
fn open_entrances_hides_the_two_gates_only() {
    let size = 3;
    let mut labyrinth = build(size);
    open_entrances(&mut labyrinth);
    for cell in 0..size * size {
        for direction in Direction::iter() {
            assert_eq!(
                labyrinth.is_shown(cell, &direction),
                !is_gate(&labyrinth, cell, &direction)
            );
        }
    }
}

#[test]
fn a_new_generator_stands_on_the_first_cell() {
    let labyrinth = build(3);
    let generator = Generator::new(&labyrinth);
    assert_eq!(generator.current(), 0);
    assert_eq!(generator.visited_count(), 0);
    assert_eq!(generator.depth(), 0);
    assert!(!generator.is_done());
}

#[test]
fn candidates_come_in_the_fixed_order() {
    let labyrinth = build(3);
    let generator = Generator::new(&labyrinth);
    assert_eq!(
        generator.candidates(&labyrinth),
        vec![(Direction::Down, 3), (Direction::Right, 1)]
    );
}

#[test]
fn candidates_leave_out_visited_neighbours() {
    let mut labyrinth = build(3);
    let mut generator = Generator::new(&labyrinth);
    generator.step(&mut labyrinth, 1);
    assert_eq!(generator.current(), 1);
    assert_eq!(
        generator.candidates(&labyrinth),
        vec![(Direction::Down, 4), (Direction::Right, 2)]
    );
    generator.step(&mut labyrinth, 0);
    assert_eq!(generator.current(), 4);
    assert_eq!(
        generator.candidates(&labyrinth),
        vec![(Direction::Down, 7), (Direction::Left, 3), (Direction::Right, 5)]
    );
}

#[test]
fn the_draw_selects_among_the_candidates() {
    for (draw, direction, cell) in [
        (0usize, Direction::Down, 2usize),
        (1, Direction::Right, 1),
        (4, Direction::Down, 2),
        (7, Direction::Right, 1),
        (usize::MAX, Direction::Right, 1),
    ] {
        let mut labyrinth = build(2);
        let mut generator = Generator::new(&labyrinth);
        generator.step(&mut labyrinth, draw);
        assert_eq!(generator.current(), cell);
        assert!(!labyrinth.is_shown(0, &direction));
        assert_eq!(open_passages(&labyrinth), 1);
        assert_eq!(generator.visited_count(), 1);
    }
}

#[test]
fn a_cell_with_several_candidates_becomes_a_branch_point() {
    let mut labyrinth = build(2);
    let mut generator = Generator::new(&labyrinth);
    assert_eq!(generator.candidates(&labyrinth).len(), 2);
    generator.step(&mut labyrinth, 0);
    assert_eq!(generator.depth(), 1);
}

#[test]
fn a_single_candidate_causes_no_push() {
    let mut labyrinth = build(2);
    let mut generator = Generator::new(&labyrinth);
    generator.step(&mut labyrinth, 0);
    assert_eq!(generator.current(), 2);
    assert_eq!(generator.candidates(&labyrinth), vec![(Direction::Right, 3)]);
    let depth = generator.depth();
    generator.step(&mut labyrinth, 5);
    assert_eq!(generator.depth(), depth);
    assert_eq!(generator.current(), 3);
    assert_eq!(generator.candidates(&labyrinth), vec![(Direction::Up, 1)]);
    generator.step(&mut labyrinth, 9);
    assert_eq!(generator.depth(), depth);
    assert_eq!(generator.current(), 1);
}

#[test]
fn a_dead_end_returns_to_the_latest_branch_point() {
    let mut labyrinth = build(2);
    let mut generator = Generator::new(&labyrinth);
    for draw in [0usize, 0, 0] {
        generator.step(&mut labyrinth, draw);
    }
    assert_eq!(generator.current(), 1);
    assert_eq!(generator.visited_count(), 3);
    assert!(generator.candidates(&labyrinth).is_empty());
    assert_eq!(generator.depth(), 1);
    let before: Vec<Line> = labyrinth.lines().clone();
    generator.step(&mut labyrinth, 3);
    assert_eq!(generator.current(), 0);
    assert_eq!(generator.depth(), 0);
    assert_eq!(generator.visited_count(), 4);
    assert!(generator.is_done());
    assert_eq!(*labyrinth.lines(), before);
}

#[test]
fn a_single_cell_is_done_after_one_step() {
    let mut labyrinth = build(1);
    open_entrances(&mut labyrinth);
    let mut generator = Generator::new(&labyrinth);
    assert!(generator.candidates(&labyrinth).is_empty());
    assert!(!generator.is_done());
    generator.step(&mut labyrinth, 0);
    assert!(generator.is_done());
    assert_eq!(generator.visited_count(), 1);
    assert_eq!(generator.current(), 0);
    assert_eq!(generator.depth(), 0);
}

#[test]
fn generate_on_a_single_cell() {
    let mut labyrinth = build(1);
    generate(&mut labyrinth);
    assert_eq!(open_passages(&labyrinth), 0);
    assert!(!labyrinth.is_shown(0, &Direction::Left));
    assert!(!labyrinth.is_shown(0, &Direction::Right));
    assert!(labyrinth.is_shown(0, &Direction::Up));
    assert!(labyrinth.is_shown(0, &Direction::Down));
    assert_eq!(labyrinth.draw().len(), 2);
}

#[test]
fn generate_on_two_by_two_opens_three_of_four() {
    for _ in 0..20 {
        let mut labyrinth = build(2);
        generate(&mut labyrinth);
        assert_eq!(open_passages(&labyrinth), 3);
        assert_eq!(reachable(&labyrinth), 4);
        let hidden = labyrinth.lines().iter().filter(|line| !line.shown).count();
        assert_eq!(hidden, 5);
    }
}

#[test]
fn generate_carves_a_spanning_tree() {
    for size in 1..=12usize {
        let mut labyrinth = build(size);
        generate(&mut labyrinth);
        check_perfect(&labyrinth);
    }
}

#[test]
fn generate_leaves_the_walls_where_they_are() {
    let size = 5;
    let fresh = build(size);
    let mut labyrinth = build(size);
    generate(&mut labyrinth);
    assert_eq!(labyrinth.lines().len(), fresh.lines().len());
    for (carved, made) in labyrinth.lines().iter().zip(fresh.lines().iter()) {
        assert_eq!((carved.start, carved.end, carved.color), (made.start, made.end, made.color));
    }
    for index in 0..size * size {
        assert_eq!(labyrinth.cell(index), fresh.cell(index));
    }
    let hidden = labyrinth.lines().iter().filter(|line| !line.shown).count();
    assert_eq!(hidden, size * size - 1 + 2);
    assert_eq!(labyrinth.draw().len(), 2 * size * (size + 1) - (size * size + 1));
}

#[test]
fn run_marks_every_cell() {
    for size in 1..=8usize {
        let mut labyrinth = build(size);
        let mut generator = Generator::new(&labyrinth);
        generator.run(&mut labyrinth);
        assert!(generator.is_done());
        assert_eq!(generator.visited_count(), size * size);
        assert_eq!(open_passages(&labyrinth), size * size - 1);
        assert_eq!(reachable(&labyrinth), size * size);
    }
}

#[test]
fn every_step_enters_a_new_cell_or_returns() {
    let size = 6;
    let mut labyrinth = build(size);
    let mut generator = Generator::new(&labyrinth);
    let mut rng = StdRng::seed_from_u64(11);
    let mut entered = vec![0usize; size * size];
    entered[0] = 1;
    while !generator.is_done() {
        let options = generator.candidates(&labyrinth).len();
        let passages = open_passages(&labyrinth);
        let depth = generator.depth();
        generator.step(&mut labyrinth, rng.gen::<usize>());
        if options == 0 {
            assert_eq!(open_passages(&labyrinth), passages);
            assert!(generator.depth() + 1 == depth || generator.is_done());
        } else {
            assert_eq!(open_passages(&labyrinth), passages + 1);
            entered[generator.current()] += 1;
            assert_eq!(generator.depth(), if options > 1 { depth + 1 } else { depth });
        }
    }
    assert!(entered.iter().all(|count| *count == 1));
}

#[test]
fn seeded_runs_are_perfect() {
    for seed in 0..25u64 {
        let mut labyrinth = build(7);
        run_seeded(&mut labyrinth, seed);
        check_perfect(&labyrinth);
    }
}

#[test]
fn the_same_seed_gives_the_same_maze() {
    for size in [1usize, 2, 5, 10] {
        let mut one = build(size);
        let mut other = build(size);
        let steps = run_seeded(&mut one, 2024);
        assert_eq!(run_seeded(&mut other, 2024), steps);
        assert_eq!(one.lines(), other.lines());
    }
}

#[test]
fn different_draws_can_give_different_mazes() {
    let mut one = build(2);
    let mut other = build(2);
    let mut first = Generator::new(&one);
    let mut second = Generator::new(&other);
    first.step(&mut one, 0);
    second.step(&mut other, 1);
    assert_ne!(one.lines(), other.lines());
}

#[test]
fn the_number_of_steps_is_bounded() {
    for seed in 0..10u64 {
        let size = 6;
        let mut labyrinth = build(size);
        let steps = run_seeded(&mut labyrinth, seed);
        assert!(steps >= size * size);
        assert!(steps <= 2 * size * size);
    }
}
