//! A maze game core: a pixel grid, a randomized depth-first maze carver
//! and the movement rules of the single agent that walks the maze.

pub mod buffer;
pub mod carving;
pub mod maze;
pub mod paths;
pub mod player;
pub mod random;

pub use buffer::WindowBuffer;
pub use maze::{middle_point, MazeConfig};
pub use player::{display, place_attempt, start_end_generator, Controls, Direction, Placement, Player};
