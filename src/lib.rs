//! A nonogram puzzle engine: the grid, the hint numbers derived from runs of
//! filled cells, the crossing out of satisfied hints, and the win rule.

pub mod clock;
pub mod common;
pub mod crossout;
pub mod grid;
pub mod hints;
pub mod nonogram_board;
pub mod saved;

pub use common::{ButtonInteraction, Cell};
pub use nonogram_board::NonogramBoard;
pub use saved::{LoadError, SavedBoard};
