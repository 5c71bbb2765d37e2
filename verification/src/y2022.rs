//! Solvers for the 2022 batch of puzzles.

pub mod day01;
