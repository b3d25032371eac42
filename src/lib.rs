pub mod grid;
mod rng;
pub mod maze;
pub mod minefield;
pub mod session;
pub mod snake;
pub mod menu;

pub use grid::{CellSet, Direction};
pub use maze::{generate_maze, Maze, MazeError};
pub use minefield::{
    count_adjacent_mines, generate_minefield, place_mines, reveal_adjacent_zeros, toggle_flag, Minefield,
    MinefieldError,
};
pub use session::{CellView, MinesweeperGame, Outcome, Phase};
pub use snake::SnakeGame;
