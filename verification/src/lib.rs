//! Rules engine of a sliding-tile merge puzzle on a square grid: moves that pack and
//! merge the tiles, the tile that appears after a move, and the end of the game.

pub mod board;
pub mod grid;
pub mod grid_laws;
pub mod line;
pub mod line_laws;
mod random;

pub use board::{Board, BoardError, BOARD_CELLS, BOARD_SIZE};
pub use grid::SlideDir;
pub use line::{can_slide, slide, slide_fits, MergeDir};
