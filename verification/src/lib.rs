mod cell;
mod geometry;
mod grid;

pub use cell::Cell;
pub use geometry::get_peers;
pub use geometry::get_units;
pub use grid::Sudoku;
