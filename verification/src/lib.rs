//! Solvers for a collection of small daily text puzzles.
//!
//! Each day stands on its own: it parses a fixed textual input into a small
//! in-memory structure and computes one or two numeric answers with a
//! self-contained algorithm.  Reading the input text and printing the answers
//! is the caller's business; every function here works on plain values.

pub mod day1;
pub mod day2;
pub mod day3;
pub mod day4;
pub mod day5;
pub mod day6;
pub mod day7;
pub mod day8;
pub mod day9;
pub mod text;
