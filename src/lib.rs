//! A bit-board engine for a two-player, four-in-a-row connection game.
pub mod bits;
pub mod game;
pub mod laws;

pub use game::{ColumnFull, Direction, Game, Outcome, CELLS, HEIGHT, WIDTH};
