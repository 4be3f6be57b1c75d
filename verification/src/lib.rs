//! A small dense linear-algebra kernel with machine-checked contracts.
//!
//! Matrices are stored column by column over an abstract element type. Every
//! operation states, over a mathematical view of its operands, which matrix it
//! returns and on which inputs it fails.

pub mod error;
pub mod matrix;
pub mod decomp;
pub mod det;
pub mod random;

pub use matrix::DenseMatrix;
