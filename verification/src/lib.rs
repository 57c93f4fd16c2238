//! An exhaustive search for the best board of a five-by-five word game.
//!
//! Five words are placed on the rows of a board. Their letters come from one
//! shared bag of tiles, a wildcard tile may stand for one letter of the whole
//! board, and every cell of the board weighs the letter on it.

pub mod board;
pub mod combos;
pub mod config;
pub mod letters;
mod parallel;
pub mod score;
pub mod search;
pub mod solve;
pub mod words;
