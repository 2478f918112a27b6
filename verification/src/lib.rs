//! A forward-only generator for the Kolakoski sequence, the sequence over
//! {1, 2} that is its own run-length encoding.
//!
//! The generator keeps one small state per derivation level. Level 0 is the
//! sequence that is handed out; level `k + 1` is consulted to decide how long
//! the next run of level `k` is. Deeper levels are touched exponentially less
//! often, so a term costs constant work on average.

pub mod level;
pub mod cascade;
pub mod engine;
pub mod sequence;
pub mod theorems;
pub mod encoding;
pub mod window;
pub mod driver;
