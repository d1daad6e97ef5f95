//! A solver core for the classic 7x6 drop-piece connection game.
//!
//! The crate has three parts: a bit-encoded board with incremental,
//! mirror-symmetric position hashing (`board`), a packed 16-bit
//! transposition record (`ttentry`), and a depth-limited negamax search
//! with alpha-beta pruning over a bounded transposition cache (`engine`).

pub mod board;
pub mod engine;
pub mod human;
pub mod ttentry;
