//! Counting the cells of a grid that an ant can reach from a starting cell,
//! stepping only onto cells whose digit sum stays within a threshold.
pub mod cell;
pub mod parse;
pub mod reach;

pub use cell::{get_adjacent_cells, Cell};
pub use parse::{parse_cell, parse_u32, ParseCellError};
pub use reach::{compute_reachable_count, reachable_cells, CellState};
