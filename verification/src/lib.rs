//! Exact-integer sparse matrix arithmetic.
//!
//! A matrix is stored as its declared extents together with the list of its
//! non-zero cells; addition, subtraction and multiplication combine two such
//! matrices, pruning every cell whose value becomes zero, and a textual
//! representation can be parsed and rendered without loss.

pub mod arith;
pub mod codec;
pub mod laws;
pub mod matrix;
pub mod ops;
