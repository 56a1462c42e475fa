//! Generator for the state table of an approximate two-counter bit predictor.
//!
//! A state holds two bounded counts `(n0, n1)`: how often a binary signal was
//! 0 and how often it was 1. Counts of 40 and more are kept only
//! approximately and are advanced with a probability. The library enumerates
//! the states that can be reached from `(0, 0)`, numbers them in ascending
//! order, resolves the four successors of each state and encodes each state
//! as a row of fixed-point numbers.

pub mod closure;
pub mod counts;
pub mod laws;
pub mod state;
pub mod table;
pub mod text;
