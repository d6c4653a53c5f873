//! Constant-time boolean helpers.
//!
//! Verification of a secret slice must not reveal, through timing, which
//! coefficient failed: per-cell results are combined through `subtle`'s
//! branch-free machinery instead of short-circuiting boolean operators.

use vstd::prelude::*;

verus! {

/// Combines two verification bits without branching on either.
///
/// Relies on subtle: `Choice::from` wraps a 0/1 byte and `&` on `Choice` is
/// the bitwise AND of those bytes, so the result is set iff both inputs are.
#[verifier::external_body]
pub(crate) fn ct_and(a: bool, b: bool) -> (r: bool)
    ensures
        r == (a && b),
{
    (subtle::Choice::from(a as u8) & subtle::Choice::from(b as u8)).into()
}

/// Compares two words in constant time.
///
/// Relies on subtle: `u64::ct_eq` returns the choice set iff the two words
/// are equal, computed from their XOR without branching.
#[verifier::external_body]
pub(crate) fn ct_eq_u64(a: u64, b: u64) -> (r: bool)
    ensures
        r == (a == b),
{
    subtle::ConstantTimeEq::ct_eq(&a, &b).into()
}

} // verus!
