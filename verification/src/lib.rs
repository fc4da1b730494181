//! A linear-system solver: dense matrices of IEEE 754 binary64 values,
//! built from raw numeric grids or from textual linear equations, and
//! reduced to row-echelon form by Gauss-Jordan elimination.
//!
//! Verified code cannot operate on machine floating-point directly, so every
//! binary64 value is carried as its bit pattern (a `u64`). The arithmetic on
//! those patterns is performed by a software implementation of IEEE 754
//! behind a small trusted boundary (see `fp`); everything else — parsing,
//! pivot selection, row exchange, normalization, elimination, rendering —
//! is verified against an exact specification-level model.

pub mod error;
pub mod fp;
pub mod matrix;
pub mod parse;
pub mod present;
pub mod solver;
