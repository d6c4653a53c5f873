//! The verification-matrix and verification-vector commitment types.

pub mod matrix;
pub mod wire;
pub mod vector;
