//! Guess evaluation and entropy ranking for a fixed-length word-guessing game.
//!
//! The player submits a word and the game answers with one symbol per letter.
//! This crate derives that answer for a guess against a hidden word, decides
//! which words an answer leaves possible, measures how a guess would split the
//! words that are still possible, and drives the rounds of a game.

pub mod filter;
pub mod guess;
pub mod mask;
pub mod partition;
pub mod pattern;
pub mod product;
pub mod rank;
pub mod solver;
pub mod word;
