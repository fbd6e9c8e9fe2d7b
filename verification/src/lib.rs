//! A verified interaction (lookup/permutation) argument engine for a
//! STARK-style proof system.
//!
//! Chips declare send/receive interactions over bus arguments; from a chip's
//! main trace and three random challenges the engine produces an auxiliary
//! trace of reciprocal columns plus a running-sum column, and re-checks that
//! trace through a constraint evaluator.  Field elements are integers modulo
//! a prime `p`, carried as `u64` values below `p`; the field backend itself
//! (and the choice of `p`) belongs to the surrounding proof system.

pub mod chip;
pub mod constraints;
pub mod field;
pub mod interaction;
pub mod laws;
pub mod matrix;
pub mod trace;
