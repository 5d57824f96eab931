//! A perfect maze over a rectangular grid, maintained as a spanning tree that
//! is re-rooted in constant time while the root performs a random walk.
//!
//! The maze stores one parent pointer per cell (the root has none) and one
//! flag per wall; the set of open walls is always exactly the edge set of the
//! spanning tree. `Maze::new` builds the initial comb-shaped tree,
//! `Maze::step` moves the root to a random neighbour while keeping every
//! invariant, and `Maze::to_str` renders the walls as text.

pub mod count;
pub mod dir;
pub mod laws;
pub mod maze;
pub mod render;
pub mod rng;
pub mod view;

pub use dir::Dir;
pub use dir::MazeError;
pub use maze::Maze;
pub use view::MazeView;
