//! Verification-matrix core of a verifiable secret sharing scheme.
//!
//! A dealer commits to a bivariate polynomial `B(x, y)` over a prime field by
//! publishing the grid of group elements `b_{i,j} * G`.  Shareholders check
//! evaluations and univariate slices of `B` against that public commitment
//! without learning the polynomial itself.  Commitments from several dealers
//! combine homomorphically by cell-wise group addition.

pub mod algebra;
pub mod ct;
pub mod modular;
pub mod poly;
pub mod sums;
pub mod vss;
