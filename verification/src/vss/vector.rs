//! The verification vector: a one-dimensional commitment to a univariate
//! polynomial, one group element per coefficient, obtained by projecting a
//! verification matrix along one axis.

use crate::algebra::{FieldElement, GroupElement};
use crate::ct::ct_and;
use crate::poly::Polynomial;
use vstd::arithmetic::div_mod::lemma_small_mod;
use vstd::prelude::*;

verus! {

/// A commitment to the coefficients of a univariate polynomial: entry `k`
/// commits to the coefficient of `z^k`.
pub struct VerificationVector<G> {
    /// The committed coefficients, lifted by the group generator.
    pub v: Vec<G>,
}

impl<G: GroupElement> View for VerificationVector<G> {
    type V = Seq<nat>;

    open spec fn view(&self) -> Seq<nat> {
        Seq::new(self.v@.len(), |k: int| self.v@[k].rep())
    }
}

impl<G: GroupElement> VerificationVector<G> {
    /// Wraps a sequence of group elements as a verification vector.
    pub fn new(v: Vec<G>) -> (r: Self)
        ensures
            r.v@ == v@,
            r@.len() == v@.len(),
            forall|k: int| 0 <= k < v@.len() ==> r@[k] == (#[trigger] v@[k]).rep(),
    {
        VerificationVector { v }
    }

    /// The number of committed coefficients.
    pub fn len(&self) -> (r: usize)
        ensures
            r == self@.len(),
    {
        self.v.len()
    }

    /// Checks whether a univariate polynomial is the one this vector commits
    /// to: the polynomial has as many coefficients as the vector has entries
    /// and lifting each coefficient by the generator gives the entry.
    ///
    /// The per-coefficient results are accumulated without short-circuiting,
    /// so the comparison's timing does not reveal which coefficient differed.
    pub fn is_from(&self, polynomial: &Polynomial<G::Scalar>) -> (r: bool)
        ensures
            r == (polynomial@ == self@),
    {
        proof {
            <G::Scalar as FieldElement>::order_nontrivial();
        }
        let ghost q = <G::Scalar as FieldElement>::order();
        if polynomial.size() != self.v.len() {
            proof {
                assert(polynomial@.len() != self@.len());
            }
            return false;
        }
        let g = G::generator();
        let n: usize = self.v.len();
        let mut verified = true;
        let mut k: usize = 0;
        while k < n
            invariant
                k <= n,
                q == <G::Scalar as FieldElement>::order(),
                q > 1,
                n == self@.len(),
                n == self.v@.len(),
                polynomial@.len() == n,
                g.rep() == 1,
                verified == (forall|t: int| 0 <= t < k ==> polynomial@[t] == self@[t]),
            decreases n - k,
        {
            let c = match polynomial.coefficient(k) {
                Some(c) => c,
                None => {
                    proof {
                        assert(false);
                    }
                    G::Scalar::zero()
                },
            };
            let lifted = g.scalar_mul(&c);
            proof {
                c.rep_reduced();
                lemma_small_mod(c.rep(), q);
                assert(lifted.rep() == polynomial@[k as int]);
            }
            let ok = lifted.eq_elem(&self.v[k]);
            verified = ct_and(verified, ok);
            k = k + 1;
        }
        proof {
            if verified {
                assert(polynomial@ =~= self@);
            }
        }
        verified
    }
}

} // verus!
