//! Ownership demonstration types and a verified fork-join map-reduce
//! evaluator.
//!
//! `ownership` holds small value types that make moving, borrowing, copying,
//! cloning and scoped mutation concrete. `map_reduce` holds the one piece
//! with real algorithmic content: a chunked map-reduce whose contracts pin
//! the computed value exactly, together with proofs that — for an
//! associative reduction and an identity-like seed — the chunked evaluation
//! equals the sequential left-fold, however the input is partitioned.

pub mod map_reduce;
pub mod ownership;
