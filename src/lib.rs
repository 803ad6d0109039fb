//! Puzzle solutions with machine-checked contracts.
//!
//! The centre of the crate is a round-based simulation of workers that pass
//! integer items to each other: `grammar` states the text format, `parser`
//! reads it, `framing`, `shifting`, `locality` and `truncation` prove how
//! blocks of that format parse in context and where a damaged block fails,
//! `expression` evaluates the workers' rules, `engine` runs the rounds,
//! `metric` and `divisibility` compute the published number and the common
//! multiple, and `monkeys` ties them together. The other modules
//! solve smaller, independent puzzles over text input.
pub mod calories;
pub mod crt;
pub mod divisibility;
pub mod engine;
pub mod expression;
pub mod framing;
pub mod grammar;
pub mod locality;
pub mod markers;
pub mod metric;
pub mod monkeys;
pub mod parser;
pub mod ranges;
pub mod rock_paper_scissors;
pub mod rope;
pub mod rucksacks;
pub mod shifting;
pub mod text;
pub mod towers;
pub mod trees;
pub mod truncation;

pub use calories::day01;
pub use crt::day10;
pub use markers::day06;
pub use monkeys::day11;
pub use ranges::day04;
pub use rock_paper_scissors::day02;
pub use rope::day09;
pub use rucksacks::day03;
pub use towers::day05;
pub use trees::day08;
