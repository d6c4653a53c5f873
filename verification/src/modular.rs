//! A concrete prime-order group for the commitment scheme.
//!
//! The scheme is generic over any prime field and prime-order group; this
//! module instantiates it with the smallest structure carrying the whole
//! interface: the field of integers modulo the prime `ORDER`, acting on its
//! own additive group with generator one.  A scalar is its residue; a group
//! element is the residue that is its discrete logarithm.  The canonical
//! encoding is the four-byte big-endian form of the residue, and only reduced
//! residues decode, so the encoding is unique.

use crate::algebra::{FieldElement, GroupElement};
use crate::ct::ct_eq_u64;
use vstd::arithmetic::div_mod::{
    lemma_add_mod_noop, lemma_div_is_ordered, lemma_fundamental_div_mod_converse, lemma_mod_bound,
    lemma_mod_twice, lemma_mul_mod_noop, lemma_small_mod,
};
use vstd::prelude::*;

verus! {

/// The order of the field and of the group: the largest prime below `2^32`.
pub const ORDER: u64 = 4294967291;

/// A scalar of the prime field, held as a word whose residue modulo `ORDER`
/// is the scalar's value.
#[derive(Clone, Copy, Debug, PartialEq, Eq, Structural)]
pub struct ModScalar {
    v: u64,
}

/// An element of the additive group of the same prime order, held as the word
/// whose residue is its discrete logarithm with respect to the generator.
#[derive(Clone, Copy, Debug, PartialEq, Eq, Structural)]
pub struct ModPoint {
    v: u64,
}

/// Bounds the product of two reduced residues below `2^64`.
proof fn lemma_mul_fits(a: nat, b: nat)
    requires
        a < ORDER,
        b < ORDER,
    ensures
        a * b <= 18446744065119617100,
{
    assert(a * b <= 4294967290 * 4294967290) by (nonlinear_arith)
        requires
            a <= 4294967290,
            b <= 4294967290,
    ;
}

impl FieldElement for ModScalar {
    closed spec fn order() -> nat {
        ORDER as nat
    }

    closed spec fn rep(self) -> nat {
        self.v as nat % (ORDER as nat)
    }

    proof fn order_nontrivial() {
    }

    proof fn rep_reduced(self) {
        lemma_mod_bound(self.v as int, ORDER as int);
    }

    fn zero() -> (r: Self) {
        proof {
            lemma_small_mod(0, ORDER as nat);
        }
        ModScalar { v: 0 }
    }

    fn one() -> (r: Self) {
        proof {
            lemma_small_mod(1, ORDER as nat);
        }
        ModScalar { v: 1 }
    }

    fn from_u64(w: u64) -> (r: Self) {
        proof {
            lemma_mod_twice(w as int, ORDER as int);
        }
        ModScalar { v: w % ORDER }
    }

    fn add(self, other: Self) -> (r: Self) {
        proof {
            lemma_mod_bound(self.v as int, ORDER as int);
            lemma_mod_bound(other.v as int, ORDER as int);
            lemma_add_mod_noop(self.v as int, other.v as int, ORDER as int);
            lemma_mod_twice((self.v as nat % (ORDER as nat) + other.v as nat % (ORDER as nat)) as int, ORDER as int);
        }
        ModScalar { v: (self.v % ORDER + other.v % ORDER) % ORDER }
    }

    fn mul(self, other: Self) -> (r: Self) {
        proof {
            lemma_mod_bound(self.v as int, ORDER as int);
            lemma_mod_bound(other.v as int, ORDER as int);
            lemma_mul_fits(self.v as nat % (ORDER as nat), other.v as nat % (ORDER as nat));
            lemma_mul_mod_noop(self.v as int, other.v as int, ORDER as int);
            lemma_mod_twice((self.v as nat % (ORDER as nat)) as int * (other.v as nat % (ORDER as nat)) as int, ORDER as int);
        }
        ModScalar { v: ((self.v % ORDER) * (other.v % ORDER)) % ORDER }
    }

    fn neg(self) -> (r: Self) {
        let a: u64 = self.v % ORDER;
        proof {
            lemma_mod_bound(self.v as int, ORDER as int);
            if a == 0 {
                lemma_small_mod(0, ORDER as nat);
            } else {
                lemma_small_mod((ORDER - a) as nat, ORDER as nat);
                lemma_small_mod(0, ORDER as nat);
            }
        }
        ModScalar { v: (ORDER - a) % ORDER }
    }
}

impl GroupElement for ModPoint {
    type Scalar = ModScalar;

    closed spec fn rep(self) -> nat {
        self.v as nat % (ORDER as nat)
    }

    closed spec fn enc(v: nat) -> Seq<u8> {
        seq![
            ((((v / 256) / 256) / 256) % 256) as u8,
            (((v / 256) / 256) % 256) as u8,
            ((v / 256) % 256) as u8,
            (v % 256) as u8,
        ]
    }

    closed spec fn enc_len() -> nat {
        4
    }

    proof fn rep_reduced(self) {
        lemma_mod_bound(self.v as int, ORDER as int);
    }

    proof fn enc_len_bounds(v: nat) {
    }

    proof fn enc_injective(a: nat, b: nat) {
        lemma_enc_recon(a);
        lemma_enc_recon(b);
    }

    fn identity() -> (r: Self) {
        proof {
            lemma_small_mod(0, ORDER as nat);
        }
        ModPoint { v: 0 }
    }

    fn generator() -> (r: Self) {
        proof {
            lemma_small_mod(1, ORDER as nat);
        }
        ModPoint { v: 1 }
    }

    fn add(self, other: Self) -> (r: Self) {
        proof {
            lemma_mod_bound(self.v as int, ORDER as int);
            lemma_mod_bound(other.v as int, ORDER as int);
            lemma_add_mod_noop(self.v as int, other.v as int, ORDER as int);
            lemma_mod_twice((self.v as nat % (ORDER as nat) + other.v as nat % (ORDER as nat)) as int, ORDER as int);
        }
        ModPoint { v: (self.v % ORDER + other.v % ORDER) % ORDER }
    }

    fn neg(self) -> (r: Self) {
        let a: u64 = self.v % ORDER;
        proof {
            lemma_mod_bound(self.v as int, ORDER as int);
            if a == 0 {
                lemma_small_mod(0, ORDER as nat);
            } else {
                lemma_small_mod((ORDER - a) as nat, ORDER as nat);
                lemma_small_mod(0, ORDER as nat);
            }
        }
        ModPoint { v: (ORDER - a) % ORDER }
    }

    fn scalar_mul(self, s: &ModScalar) -> (r: Self) {
        proof {
            lemma_mod_bound(self.v as int, ORDER as int);
            lemma_mod_bound(s.v as int, ORDER as int);
            lemma_mul_fits(self.v as nat % (ORDER as nat), s.v as nat % (ORDER as nat));
            lemma_mul_mod_noop(self.v as int, s.v as int, ORDER as int);
            lemma_mod_twice((self.v as nat % (ORDER as nat)) as int * (s.v as nat % (ORDER as nat)) as int, ORDER as int);
        }
        ModPoint { v: ((self.v % ORDER) * (s.v % ORDER)) % ORDER }
    }

    fn is_identity(&self) -> (r: bool) {
        proof {
            lemma_mod_bound(self.v as int, ORDER as int);
        }
        ct_eq_u64(self.v % ORDER, 0)
    }

    fn eq_elem(&self, other: &Self) -> (r: bool) {
        proof {
            lemma_mod_bound(self.v as int, ORDER as int);
            lemma_mod_bound(other.v as int, ORDER as int);
        }
        ct_eq_u64(self.v % ORDER, other.v % ORDER)
    }

    fn byte_size() -> (r: usize) {
        4
    }

    fn to_bytes(&self) -> (r: Vec<u8>) {
        let w = self.v % ORDER;
        let t1 = w / 256;
        let t2 = t1 / 256;
        let t3 = t2 / 256;
        let r = vec![(t3 % 256) as u8, (t2 % 256) as u8, (t1 % 256) as u8, (w % 256) as u8];
        proof {
            lemma_mod_bound(self.v as int, ORDER as int);
            assert(r@ =~= Self::enc(self.rep()));
        }
        r
    }

    fn from_bytes(bytes: &[u8]) -> (r: Option<Self>) {
        if bytes.len() != 4 {
            return None;
        }
        let b0 = bytes[0] as u64;
        let b1 = bytes[1] as u64;
        let b2 = bytes[2] as u64;
        let b3 = bytes[3] as u64;
        let w = ((b0 * 256 + b1) * 256 + b2) * 256 + b3;
        if w >= ORDER {
            proof {
                assert forall|v: nat| v < ORDER as nat implies bytes@ != Self::enc(v) by {
                    if bytes@ == Self::enc(v) {
                        lemma_enc_recon(v);
                    }
                }
            }
            return None;
        }
        proof {
            lemma_fundamental_div_mod_converse(w as int, 256, (b0 * 256 + b1) * 256 + b2, b3 as int);
            lemma_fundamental_div_mod_converse(((b0 * 256 + b1) * 256 + b2) as int, 256, b0 * 256 + b1, b2 as int);
            lemma_fundamental_div_mod_converse((b0 * 256 + b1) as int, 256, b0 as int, b1 as int);
            lemma_small_mod(w as nat, ORDER as nat);
            lemma_small_mod(b0 as nat, 256);
            assert(bytes@ =~= Self::enc(w as nat % (ORDER as nat)));
        }
        Some(ModPoint { v: w })
    }
}

/// Recombining the four encoded digits of a word below `2^32` gives the word
/// back, so the encoding loses nothing.
proof fn lemma_enc_recon(v: nat)
    requires
        v < 4294967296,
    ensures
        v == (((<ModPoint as GroupElement>::enc(v)[0] as nat) * 256 + (
        <ModPoint as GroupElement>::enc(v)[1] as nat)) * 256 + (<ModPoint as GroupElement>::enc(
            v,
        )[2] as nat)) * 256 + (<ModPoint as GroupElement>::enc(v)[3] as nat),
{
    let t1 = v / 256;
    let t2 = t1 / 256;
    let t3 = t2 / 256;
    lemma_div_is_ordered(v as int, 4294967295, 256);
    lemma_div_is_ordered(t1 as int, 16777215, 256);
    lemma_div_is_ordered(t2 as int, 65535, 256);
    assert(t3 < 256);
    lemma_small_mod(t3, 256);
    vstd::arithmetic::div_mod::lemma_fundamental_div_mod(v as int, 256);
    vstd::arithmetic::div_mod::lemma_fundamental_div_mod(t1 as int, 256);
    vstd::arithmetic::div_mod::lemma_fundamental_div_mod(t2 as int, 256);
    lemma_mod_bound(v as int, 256);
    lemma_mod_bound(t1 as int, 256);
    lemma_mod_bound(t2 as int, 256);
}

} // verus!
