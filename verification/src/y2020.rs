//! Solvers for the 2020 batch of puzzles.

pub mod bags;
pub mod boarding;
pub mod customs;
pub mod expense;
pub mod passport;
pub mod password;
pub mod trees;
