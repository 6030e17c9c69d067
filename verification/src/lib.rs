//! A verified solver for the Mastermind code-breaking puzzle.
//!
//! A hidden sequence of pegs, each holding a small integer value, is found by
//! repeatedly proposing a guess, receiving feedback (how many pegs match in
//! value and position, and how many match in value only), and discarding every
//! candidate sequence inconsistent with that feedback. Guesses are chosen by a
//! minimax heuristic: the guess whose worst-case feedback class leaves the
//! fewest candidates standing.

pub mod domain;
pub mod filter;
pub mod format;
pub mod generate;
pub mod parse;
pub mod score;
pub mod select;
pub mod session;
