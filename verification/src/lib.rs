//! Perfect mazes on a square grid.
//!
//! A [`grid::Labyrinth`] is a square arrangement of cells whose walls live in
//! one arena, so that two neighbouring cells refer to the very same wall.
//! The [`generator`] carves passages through it with a randomized
//! depth-first traversal; what is proved of the result is that the open
//! passages form a spanning tree of the grid.
//!
//! - [`shapes`]: directions, points and wall segments.
//! - [`grid`]: cells and the labyrinth that holds them and their walls.
//! - [`layout`]: the labyrinth as mathematics, and what a well laid out
//!   one is.
//! - [`passages`]: the graph of open passages and what carving does to it.
//! - [`census`]: how many walls a grid has between cells and at its edge.
//! - [`traversal`]: the traversal as mathematics, step by step.
//! - [`generator`]: the traversal as it runs.
use vstd::prelude::*;

pub mod shapes;
pub mod grid;
pub mod layout;
pub mod passages;
pub mod census;
pub mod traversal;
pub mod generator;

verus! {

/// Side length of the grid that the command-line driver builds.
pub const GRID_SIZE: usize = 10;

/// Pixels per grid step when a wall is placed in render space.
pub const MULTIPLIER: usize = 25;

/// Padding, in pixels, between the canvas edge and the grid.
pub const OFFSET: usize = 50;

} // verus!
