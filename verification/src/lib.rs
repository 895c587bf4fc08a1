//! Verified solvers for a handful of small text puzzles: pair and triple sums,
//! password policies, slope traversal of a grid, passport records and
//! boarding-pass codes.

pub mod day01;
pub mod day02;
pub mod day03;
pub mod day04;
pub mod day05;
pub mod lexer;
