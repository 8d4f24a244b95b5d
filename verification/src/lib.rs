//! A perfect-maze library: a rectangular grid of cells with symmetric wall
//! state, a randomized depth-first backtracking generator, and a text
//! rendering of the resulting maze.

pub mod counting;
pub mod generator;
pub mod grid;
pub mod render;

pub use generator::gen_maze;
pub use generator::gen_maze_seeded;
pub use generator::MazeGen;
pub use generator::DEFAULT_SEED;
pub use grid::Cell;
pub use grid::ALL_TILE_DIRECTIONS;
pub use grid::Maze;
pub use grid::Size;
pub use grid::TileDirection;
