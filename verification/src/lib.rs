//! The board and game-state engine of a single-player Minesweeper.
//!
//! A rectangular grid of tiles holds the mines; the player opens tiles and
//! plants flags until every mine carries a flag or a mine is opened.

pub mod algo;
pub mod count;
pub mod data;
pub mod display;
pub mod engine;
pub mod rng;
