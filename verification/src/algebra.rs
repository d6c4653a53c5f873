//! Abstract algebraic interface the commitment scheme is generic over.
//!
//! The verification matrix only needs a prime field of scalars together with a
//! group of prime order written additively: identity, a fixed generator,
//! addition, negation, scalar multiplication, an identity test and a canonical
//! fixed-size byte encoding.  Both traits model a value by its residue: a
//! scalar by its value in `[0, order)`, a group element by the discrete
//! logarithm of the element with respect to the generator, which determines
//! the element uniquely in a cyclic group of prime order.

use vstd::prelude::*;

verus! {

/// A prime field of scalars, modelled by the residue `rep` in `[0, order)`.
pub trait FieldElement: Sized + Copy {
    /// The order of the field, a prime; the model works for any order above one.
    spec fn order() -> nat;

    /// The mathematical value of this scalar.
    spec fn rep(self) -> nat;

    /// The field has at least the two elements zero and one.
    proof fn order_nontrivial()
        ensures
            Self::order() > 1,
    ;

    /// Every scalar's value is a reduced residue.
    proof fn rep_reduced(self)
        ensures
            self.rep() < Self::order(),
    ;

    fn zero() -> (r: Self)
        ensures
            r.rep() == 0,
    ;

    fn one() -> (r: Self)
        ensures
            r.rep() == 1,
    ;

    fn from_u64(w: u64) -> (r: Self)
        ensures
            r.rep() == w as nat % Self::order(),
    ;

    fn add(self, other: Self) -> (r: Self)
        ensures
            r.rep() == (self.rep() + other.rep()) % Self::order(),
    ;

    fn mul(self, other: Self) -> (r: Self)
        ensures
            r.rep() == (self.rep() * other.rep()) % Self::order(),
    ;

    fn neg(self) -> (r: Self)
        ensures
            (self.rep() + r.rep()) % Self::order() == 0,
    ;
}

/// An additively written cyclic group whose order equals the scalar field's,
/// modelled by the discrete logarithm `rep` of an element base the generator.
pub trait GroupElement: Sized + Copy {
    /// The scalar field acting on the group.
    type Scalar: FieldElement;

    /// The discrete logarithm of this element with respect to the generator.
    spec fn rep(self) -> nat;

    /// The canonical encoding of the element whose discrete logarithm is `v`.
    spec fn enc(v: nat) -> Seq<u8>;

    /// The length of the canonical encoding of any element.
    spec fn enc_len() -> nat;

    /// Every element's discrete logarithm is a reduced residue.
    proof fn rep_reduced(self)
        ensures
            self.rep() < <Self::Scalar as FieldElement>::order(),
    ;

    /// Encodings are non-empty, of one fixed size, and bounded.
    proof fn enc_len_bounds(v: nat)
        requires
            v < <Self::Scalar as FieldElement>::order(),
        ensures
            1 <= Self::enc_len() <= 8192,
            Self::enc(v).len() == Self::enc_len(),
    ;

    /// The canonical encoding is unique: distinct elements encode differently.
    proof fn enc_injective(a: nat, b: nat)
        requires
            a < <Self::Scalar as FieldElement>::order(),
            b < <Self::Scalar as FieldElement>::order(),
            Self::enc(a) == Self::enc(b),
        ensures
            a == b,
    ;

    fn identity() -> (r: Self)
        ensures
            r.rep() == 0,
    ;

    fn generator() -> (r: Self)
        ensures
            r.rep() == 1,
    ;

    fn add(self, other: Self) -> (r: Self)
        ensures
            r.rep() == (self.rep() + other.rep()) % <Self::Scalar as FieldElement>::order(),
    ;

    fn neg(self) -> (r: Self)
        ensures
            (self.rep() + r.rep()) % <Self::Scalar as FieldElement>::order() == 0,
    ;

    fn scalar_mul(self, s: &Self::Scalar) -> (r: Self)
        ensures
            r.rep() == (self.rep() * s.rep()) % <Self::Scalar as FieldElement>::order(),
    ;

    /// Whether this element is the group identity, decided in constant time.
    fn is_identity(&self) -> (r: bool)
        ensures
            r == (self.rep() == 0),
    ;

    /// Whether two elements are equal.
    fn eq_elem(&self, other: &Self) -> (r: bool)
        ensures
            r == (self.rep() == other.rep()),
    ;

    /// The length of the canonical encoding, as a machine integer.
    fn byte_size() -> (r: usize)
        ensures
            r as nat == Self::enc_len(),
    ;

    fn to_bytes(&self) -> (r: Vec<u8>)
        ensures
            r@ == Self::enc(self.rep()),
    ;

    /// Decodes a canonical encoding; rejects every byte string that no
    /// element encodes to.
    fn from_bytes(bytes: &[u8]) -> (r: Option<Self>)
        ensures
            match r {
                Some(g) => bytes@ == Self::enc(g.rep()),
                None => forall|v: nat|
                    v < <Self::Scalar as FieldElement>::order() ==> bytes@ != Self::enc(v),
            },
    ;
}

} // verus!
