//! Shortest-route search through a rectangular maze of walls and open tiles.
pub mod grid;
pub mod solver;
pub mod text;

pub use grid::{Coordination, EndingPoint, Maze, StartingPoint, Tile};
pub use solver::MazeSolver;
