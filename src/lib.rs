//! A Minesweeper board: mine placement, wrapping cursor movement,
//! flood-fill reveal and win detection, with verified contracts.

mod grid;

pub use grid::{Input, MSGrid, Outcome, Slot};
