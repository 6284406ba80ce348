//! A minesweeper board: mine placement, adjacency counts, flood-fill reveal,
//! flag toggling and win/loss detection, with their behaviour proved, and the
//! parser of the text commands that drive a game.

pub mod cell;
pub mod grid;
pub mod board;
pub mod flood;
pub mod laws;
pub mod command;
