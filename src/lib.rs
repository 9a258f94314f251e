//! Heuristic reduction of a set cover: drop tags from a covering descriptor
//! while every item stays covered by at least one remaining tag.
//!
//! - `coverage`: coverage vectors and the arithmetic on them, and the test
//!   that takes one tag out of a cover when that is safe.
//! - `search`: greedy passes over a descriptor and the randomised search
//!   that keeps the best of them.
//! - `diff`: where two incidence matrices differ.
//! - `input`: the text format of an incidence matrix.
//! - `solve`: input validation and rebuilding a descriptor from a mask.
pub mod coverage;
pub mod search;
pub mod diff;
pub mod input;
pub mod solve;
