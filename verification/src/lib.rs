//! Verified solvers for a collection of small text-puzzle programs.
//!
//! Each puzzle module parses a plain-text input (handed in as lines of
//! bytes) and computes one or two numeric answers.  The solvers are
//! specified against mathematical models of the puzzle rules and verified
//! with Verus; reading files and printing answers is left to callers.

pub mod grid;
pub mod text;

pub mod y2020;
pub mod y2022;
pub mod y2023;
