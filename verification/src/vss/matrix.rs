//! Verification matrix for a bivariate polynomial.
//!
//! The verification matrix `M` is the element-wise scalar product of the
//! coefficients of a bivariate polynomial `B(x, y)` and the group generator
//! `G`: `M[i][j] = b[i][j] * G`.  Published by a dealer, it lets every
//! shareholder check claimed evaluations and slices of `B` without seeing
//! `B`, and matrices from several dealers combine by cell-wise addition.

use crate::algebra::{FieldElement, GroupElement};
use crate::ct::ct_and;
use crate::poly::{powers, BivariatePolynomial, Polynomial};
use crate::sums::{
    cell, commit_grid, cpsum, grid_add, grid_reduced, lemma_accum_step, lemma_add_inverse_mod,
    lemma_diff_zero, lemma_neg_zero, mat_sum, npow, proj_x, proj_y, psum, rectangular,
};
use crate::vss::vector::VerificationVector;
use crate::vss::wire::{
    lemma_ser_grid_from_chunks, lemma_ser_grid_index, lemma_ser_grid_len, ser_grid,
};
use vstd::slice::{slice_index_get, slice_subrange};
use vstd::arithmetic::div_mod::{
    lemma_mod_bound, lemma_mod_multiples_vanish, lemma_mod_twice, lemma_mul_mod_noop,
    lemma_mul_mod_noop_right, lemma_small_mod, lemma_sub_mod_noop_right,
};
use vstd::prelude::*;

verus! {

/// The grid of group elements committing to a bivariate polynomial's
/// coefficients, row-major: `m[i][j]` commits to the coefficient of
/// `x^i y^j`.
#[derive(Clone, Debug)]
pub struct VerificationMatrix<G> {
    /// The number of rows, one more than the committed degree in `x`.
    pub rows: usize,
    /// The number of columns, one more than the committed degree in `y`.
    pub cols: usize,
    /// The commitments, a rectangular `rows x cols` grid.
    pub m: Vec<Vec<G>>,
}

impl<G: GroupElement> View for VerificationMatrix<G> {
    type V = Seq<Seq<nat>>;

    open spec fn view(&self) -> Seq<Seq<nat>> {
        Seq::new(
            self.m@.len(),
            |i: int| Seq::new(self.m@[i]@.len(), |j: int| self.m@[i]@[j].rep()),
        )
    }
}

impl<G: GroupElement> VerificationMatrix<G> {
    /// The order of the group the commitments live in.
    pub open spec fn order() -> nat {
        <G::Scalar as FieldElement>::order()
    }

    /// The grid is non-empty, rectangular, matches the declared dimensions,
    /// and each dimension fits the one-byte degree of the wire format.
    pub open spec fn wf(self) -> bool {
        &&& self.rows == self.m@.len()
        &&& 1 <= self.rows <= 256
        &&& 1 <= self.cols <= 256
        &&& forall|i: int|
            0 <= i < self.m@.len() ==> (#[trigger] self.m@[i])@.len() == self.cols
    }

    /// Every cell of the view is a reduced residue, and a well-formed
    /// matrix's view is a rectangular `rows x cols` grid.
    pub proof fn view_props(&self)
        ensures
            self@.len() == self.m@.len(),
            grid_reduced(self@, Self::order()),
            self.wf() ==> rectangular(self@, self.rows as int, self.cols as int),
    {
        assert forall|i: int, j: int|
            0 <= i < self@.len() && 0 <= j < self@[i].len() implies #[trigger] self@[i][j]
            < Self::order() by {
            self.m@[i]@[j].rep_reduced();
        }
    }

    /// Commits to a bivariate polynomial: every cell of the matrix is the
    /// generator scaled by the corresponding coefficient of the polynomial.
    pub fn from_polynomial(bp: &BivariatePolynomial<G::Scalar>) -> (r: Self)
        requires
            bp.wf(),
        ensures
            r.wf(),
            r.rows == bp.deg_x + 1,
            r.cols == bp.deg_y + 1,
            r@ == commit_grid(bp@, Self::order()),
    {
        proof {
            <G::Scalar as FieldElement>::order_nontrivial();
        }
        let ghost q = Self::order();
        let rows: usize = bp.deg_x + 1;
        let cols: usize = bp.deg_y + 1;
        let g = G::generator();
        let mut m: Vec<Vec<G>> = Vec::new();
        let mut i: usize = 0;
        while i < rows
            invariant
                i <= rows,
                q == Self::order(),
                q > 1,
                bp.wf(),
                rows == bp.deg_x + 1,
                cols == bp.deg_y + 1,
                g.rep() == 1,
                m@.len() == i,
                forall|n: int| 0 <= n < i ==> (#[trigger] m@[n])@.len() == cols,
                forall|n: int, t: int|
                    0 <= n < i && 0 <= t < cols ==> (#[trigger] m@[n]@[t]).rep() == bp@[n][t] % q,
            decreases rows - i,
        {
            let mut row: Vec<G> = Vec::new();
            let mut j: usize = 0;
            while j < cols
                invariant
                    j <= cols,
                    i < rows,
                    q == Self::order(),
                    q > 1,
                    bp.wf(),
                    rows == bp.deg_x + 1,
                    cols == bp.deg_y + 1,
                    g.rep() == 1,
                    row@.len() == j,
                    forall|t: int|
                        0 <= t < j ==> (#[trigger] row@[t]).rep() == bp@[i as int][t] % q,
                decreases cols - j,
            {
                let c = bp.b[i][j];
                let e = g.scalar_mul(&c);
                proof {
                    assert(bp@[i as int][j as int] == bp.b@[i as int]@[j as int].rep());
                    assert(1 * c.rep() == c.rep());
                }
                row.push(e);
                j = j + 1;
            }
            m.push(row);
            i = i + 1;
        }
        let r = VerificationMatrix { rows, cols, m };
        proof {
            assert(r@ =~~= commit_grid(bp@, q));
        }
        r
    }

    /// The dimensions (number of rows and columns) of the matrix.
    pub fn dimensions(&self) -> (r: (usize, usize))
        ensures
            r.0 == self.rows,
            r.1 == self.cols,
    {
        (self.rows, self.cols)
    }

    /// The element `m[i][j]`, when `(i, j)` lies within the grid.
    pub fn element(&self, i: usize, j: usize) -> (r: Option<G>)
        ensures
            match r {
                Some(e) => i < self@.len() && j < self@[i as int].len() && e.rep()
                    == self@[i as int][j as int],
                None => i >= self@.len() || (i < self@.len() && j >= self@[i as int].len()),
            },
    {
        if i < self.m.len() {
            let row_len: usize = self.m[i].len();
            if j < row_len {
                return Some(self.m[i][j]);
            }
        }
        None
    }

    /// True exactly when `m[0][0]` is the group identity, that is, when the
    /// committed polynomial's constant coefficient is zero.
    pub fn is_zero_hole(&self) -> (r: bool)
        requires
            self.wf(),
        ensures
            r == (self@[0][0] == 0),
    {
        self.m[0][0].is_identity()
    }

    /// Verifies whether the committed bivariate polynomial evaluates to the
    /// given value: true exactly when `B(x, y) == v`.
    ///
    /// Not constant time: the evaluation point and claimed value are public.
    pub fn verify(&self, x: &G::Scalar, y: &G::Scalar, v: &G::Scalar) -> (r: bool)
        requires
            self.wf(),
        ensures
            r == (mat_sum(self@, x.rep(), y.rep(), self.rows as int) % Self::order() == v.rep()),
    {
        proof {
            <G::Scalar as FieldElement>::order_nontrivial();
            self.view_props();
        }
        let ghost q = Self::order();
        let g = G::generator();
        let ng = g.neg();
        proof {
            ng.rep_reduced();
            if 1 + ng.rep() < q {
                lemma_small_mod((1 + ng.rep()) as nat, q);
            } else {
                lemma_mod_multiples_vanish(1, (1 + ng.rep() - q) as int, q as int);
                lemma_small_mod((1 + ng.rep() - q) as nat, q);
            }
            assert(ng.rep() == q - 1);
        }
        let mut diff = ng.scalar_mul(v);
        let xpows = powers(x, self.rows - 1);
        let ypows = powers(y, self.cols - 1);
        let ghost base = ((q - 1) as nat) * v.rep();
        proof {
            lemma_mod_twice(base as int, q as int);
        }
        let mut i: usize = 0;
        while i < self.rows
            invariant
                i <= self.rows,
                q == Self::order(),
                q > 1,
                self.wf(),
                xpows@.len() == self.rows,
                ypows@.len() == self.cols,
                forall|n: int| 0 <= n < self.rows ==> (#[trigger] xpows@[n]).rep()
                    == npow(x.rep(), n as nat) % q,
                forall|n: int| 0 <= n < self.cols ==> (#[trigger] ypows@[n]).rep()
                    == npow(y.rep(), n as nat) % q,
                base == ((q - 1) as nat) * v.rep(),
                diff.rep() == (base + mat_sum(self@, x.rep(), y.rep(), i as int)) % q,
            decreases self.rows - i,
        {
            proof {
                assert(psum(self@[i as int], y.rep(), 0) == 0);
                assert(npow(x.rep(), i as nat) * 0 == 0);
            }
            let mut j: usize = 0;
            while j < self.cols
                invariant
                    j <= self.cols,
                    i < self.rows,
                    q == Self::order(),
                    q > 1,
                    self.wf(),
                    xpows@.len() == self.rows,
                    ypows@.len() == self.cols,
                    forall|n: int| 0 <= n < self.rows ==> (#[trigger] xpows@[n]).rep()
                        == npow(x.rep(), n as nat) % q,
                    forall|n: int| 0 <= n < self.cols ==> (#[trigger] ypows@[n]).rep()
                        == npow(y.rep(), n as nat) % q,
                    base == ((q - 1) as nat) * v.rep(),
                    diff.rep() == (base + mat_sum(self@, x.rep(), y.rep(), i as int) + npow(
                        x.rep(),
                        i as nat,
                    ) * psum(self@[i as int], y.rep(), j as int)) % q,
                decreases self.cols - j,
            {
                let s = xpows[i].mul(ypows[j]);
                let term = self.m[i][j].scalar_mul(&s);
                proof {
                    let px = npow(x.rep(), i as nat);
                    let py = npow(y.rep(), j as nat);
                    lemma_mul_mod_noop(px as int, py as int, q as int);
                    assert(s.rep() == (px * py) % q);
                    let c = self@[i as int][j as int];
                    assert(self.m@[i as int]@[j as int].rep() == c);
                    let t = base + mat_sum(self@, x.rep(), y.rep(), i as int) + px * psum(
                        self@[i as int],
                        y.rep(),
                        j as int,
                    );
                    lemma_accum_step(t as nat, c, (px * py) as nat, s.rep(), diff.rep(), q);
                    let ps = psum(self@[i as int], y.rep(), j as int);
                    assert(psum(self@[i as int], y.rep(), j + 1) == ps + c * py);
                    assert(px * (ps + c * py) == px * ps + c * (px * py)) by (nonlinear_arith);
                }
                diff = diff.add(term);
                j = j + 1;
            }
            proof {
                assert(self@[i as int].len() == self.cols);
                assert(mat_sum(self@, x.rep(), y.rep(), i + 1) == mat_sum(
                    self@,
                    x.rep(),
                    y.rep(),
                    i as int,
                ) + npow(x.rep(), i as nat) * psum(
                    self@[i as int],
                    y.rep(),
                    self@[i as int].len() as int,
                ));
            }
            i = i + 1;
        }
        let r = diff.is_identity();
        proof {
            let s = mat_sum(self@, x.rep(), y.rep(), self.rows as int);
            v.rep_reduced();
            lemma_mod_multiples_vanish(v.rep() as int, s - v.rep(), q as int);
            assert(base + s == q * v.rep() + (s - v.rep())) by (nonlinear_arith)
                requires
                    base == ((q - 1) as nat) * v.rep(),
                    q >= 1,
            ;
            lemma_diff_zero(s as int, v.rep(), q);
        }
        r
    }

    /// The verification vector of the univariate polynomial obtained by
    /// evaluating the committed bivariate polynomial at the given `y`:
    /// entry `i` is `sum_j m[i][j] * y^j`.
    pub fn verification_vector_for_x(&self, y: &G::Scalar) -> (r: VerificationVector<G>)
        requires
            self.wf(),
        ensures
            r@ == proj_y(self@, y.rep(), self.rows as int, self.cols as int, Self::order()),
    {
        proof {
            <G::Scalar as FieldElement>::order_nontrivial();
        }
        let ghost q = Self::order();
        let ypows = powers(y, self.cols - 1);
        let mut v: Vec<G> = Vec::new();
        let mut i: usize = 0;
        while i < self.rows
            invariant
                i <= self.rows,
                q == Self::order(),
                q > 1,
                self.wf(),
                ypows@.len() == self.cols,
                forall|n: int| 0 <= n < self.cols ==> (#[trigger] ypows@[n]).rep()
                    == npow(y.rep(), n as nat) % q,
                v@.len() == i,
                forall|n: int| 0 <= n < i ==> (#[trigger] v@[n]).rep()
                    == psum(self@[n], y.rep(), self.cols as int) % q,
            decreases self.rows - i,
        {
            let mut vi = G::identity();
            proof {
                lemma_small_mod(0, q);
            }
            let mut j: usize = 0;
            while j < self.cols
                invariant
                    j <= self.cols,
                    i < self.rows,
                    q == Self::order(),
                    q > 1,
                    self.wf(),
                    ypows@.len() == self.cols,
                    forall|n: int| 0 <= n < self.cols ==> (#[trigger] ypows@[n]).rep()
                        == npow(y.rep(), n as nat) % q,
                    vi.rep() == psum(self@[i as int], y.rep(), j as int) % q,
                decreases self.cols - j,
            {
                let term = self.m[i][j].scalar_mul(&ypows[j]);
                proof {
                    assert(self@[i as int][j as int] == self.m@[i as int]@[j as int].rep());
                    lemma_accum_step(
                        psum(self@[i as int], y.rep(), j as int),
                        self@[i as int][j as int],
                        npow(y.rep(), j as nat),
                        ypows@[j as int].rep(),
                        vi.rep(),
                        q,
                    );
                }
                vi = vi.add(term);
                j = j + 1;
            }
            v.push(vi);
            i = i + 1;
        }
        let r = VerificationVector::new(v);
        proof {
            assert(r@ =~= proj_y(self@, y.rep(), self.rows as int, self.cols as int, q));
        }
        r
    }

    /// The verification vector of the univariate polynomial obtained by
    /// evaluating the committed bivariate polynomial at the given `x`:
    /// entry `j` is `sum_i m[i][j] * x^i`.
    pub fn verification_vector_for_y(&self, x: &G::Scalar) -> (r: VerificationVector<G>)
        requires
            self.wf(),
        ensures
            r@ == proj_x(self@, x.rep(), self.rows as int, self.cols as int, Self::order()),
    {
        proof {
            <G::Scalar as FieldElement>::order_nontrivial();
        }
        let ghost q = Self::order();
        let xpows = powers(x, self.rows - 1);
        let mut v: Vec<G> = Vec::new();
        let mut j: usize = 0;
        while j < self.cols
            invariant
                j <= self.cols,
                q == Self::order(),
                q > 1,
                self.wf(),
                xpows@.len() == self.rows,
                forall|n: int| 0 <= n < self.rows ==> (#[trigger] xpows@[n]).rep()
                    == npow(x.rep(), n as nat) % q,
                v@.len() == j,
                forall|n: int| 0 <= n < j ==> (#[trigger] v@[n]).rep()
                    == cpsum(self@, n, x.rep(), self.rows as int) % q,
            decreases self.cols - j,
        {
            let mut vj = G::identity();
            proof {
                lemma_small_mod(0, q);
            }
            let mut i: usize = 0;
            while i < self.rows
                invariant
                    i <= self.rows,
                    j < self.cols,
                    q == Self::order(),
                    q > 1,
                    self.wf(),
                    xpows@.len() == self.rows,
                    forall|n: int| 0 <= n < self.rows ==> (#[trigger] xpows@[n]).rep()
                        == npow(x.rep(), n as nat) % q,
                    vj.rep() == cpsum(self@, j as int, x.rep(), i as int) % q,
                decreases self.rows - i,
            {
                let term = self.m[i][j].scalar_mul(&xpows[i]);
                proof {
                    assert(self@[i as int][j as int] == self.m@[i as int]@[j as int].rep());
                    lemma_accum_step(
                        cpsum(self@, j as int, x.rep(), i as int),
                        self@[i as int][j as int],
                        npow(x.rep(), i as nat),
                        xpows@[i as int].rep(),
                        vj.rep(),
                        q,
                    );
                }
                vj = vj.add(term);
                i = i + 1;
            }
            v.push(vj);
            j = j + 1;
        }
        let r = VerificationVector::new(v);
        proof {
            assert(r@ =~= proj_x(self@, x.rep(), self.rows as int, self.cols as int, q));
        }
        r
    }

    /// Verifies a received univariate polynomial as the projection of the
    /// committed bivariate polynomial at `x`: true exactly when the
    /// polynomial has one coefficient per column and each coefficient `a_j`
    /// satisfies `a_j * G == sum_i x^i * m[i][j]`.
    ///
    /// Only the size check returns early; the per-column results are
    /// accumulated without short-circuiting so that timing does not reveal
    /// which coefficient of a secret slice failed to verify.
    pub fn verify_x(&self, x: &G::Scalar, polynomial: &Polynomial<G::Scalar>) -> (r: bool)
        requires
            self.wf(),
        ensures
            r == (polynomial@ == proj_x(
                self@,
                x.rep(),
                self.rows as int,
                self.cols as int,
                Self::order(),
            )),
    {
        proof {
            <G::Scalar as FieldElement>::order_nontrivial();
        }
        let ghost q = Self::order();
        let ghost pr = proj_x(self@, x.rep(), self.rows as int, self.cols as int, q);
        // Short-circuit on the size of the polynomial, not on its contents.
        if polynomial.size() != self.cols {
            proof {
                assert(polynomial@.len() != pr.len());
            }
            return false;
        }
        let xpows = powers(x, self.rows - 1);
        let g = G::generator();
        let mut verified = true;
        let mut j: usize = 0;
        while j < self.cols
            invariant
                j <= self.cols,
                q == Self::order(),
                q > 1,
                self.wf(),
                polynomial@.len() == self.cols,
                pr == proj_x(self@, x.rep(), self.rows as int, self.cols as int, q),
                g.rep() == 1,
                xpows@.len() == self.rows,
                forall|n: int| 0 <= n < self.rows ==> (#[trigger] xpows@[n]).rep()
                    == npow(x.rep(), n as nat) % q,
                verified == (forall|t: int| 0 <= t < j ==> polynomial@[t] == pr[t]),
            decreases self.cols - j,
        {
            let aj = match polynomial.coefficient(j) {
                Some(a) => a,
                None => {
                    proof {
                        assert(false);
                    }
                    G::Scalar::zero()
                },
            };
            let mut diff = g.scalar_mul(&aj);
            proof {
                aj.rep_reduced();
                lemma_small_mod(aj.rep(), q);
                assert(diff.rep() == aj.rep());
                lemma_small_mod(aj.rep() as nat, q);
                lemma_mod_twice(aj.rep() as int, q as int);
                assert(diff.rep() as int == (aj.rep() as int - cpsum(
                    self@,
                    j as int,
                    x.rep(),
                    0,
                ) as int) % (q as int));
            }
            let mut i: usize = 0;
            while i < self.rows
                invariant
                    i <= self.rows,
                    j < self.cols,
                    q == Self::order(),
                    q > 1,
                    self.wf(),
                    polynomial@.len() == self.cols,
                    aj.rep() == polynomial@[j as int],
                    aj.rep() < q,
                    g.rep() == 1,
                    xpows@.len() == self.rows,
                    forall|n: int| 0 <= n < self.rows ==> (#[trigger] xpows@[n]).rep()
                        == npow(x.rep(), n as nat) % q,
                    diff.rep() as int == (aj.rep() as int - cpsum(
                        self@,
                        j as int,
                        x.rep(),
                        i as int,
                    ) as int) % (q as int),
                decreases self.rows - i,
            {
                let t = self.m[i][j].scalar_mul(&xpows[i]);
                let nt = t.neg();
                proof {
                    let c = self@[i as int][j as int];
                    assert(self.m@[i as int]@[j as int].rep() == c);
                    let px = npow(x.rep(), i as nat);
                    lemma_mul_mod_noop_right(c as int, px as int, q as int);
                    assert(t.rep() == (c * px) % q);
                    t.rep_reduced();
                    nt.rep_reduced();
                    let d = aj.rep() as int - cpsum(self@, j as int, x.rep(), i as int) as int;
                    lemma_add_inverse_mod(d, t.rep(), nt.rep(), q);
                    lemma_mod_bound((c * px) as int, q as int);
                    lemma_sub_mod_noop_right(d, (c * px) as int, q as int);
                    assert(cpsum(self@, j as int, x.rep(), i + 1) == cpsum(
                        self@,
                        j as int,
                        x.rep(),
                        i as int,
                    ) + c * px);
                }
                diff = diff.add(nt);
                i = i + 1;
            }
            let ok = diff.is_identity();
            proof {
                let cp = cpsum(self@, j as int, x.rep(), self.rows as int);
                lemma_neg_zero(aj.rep() as int - cp as int, q);
                lemma_diff_zero(cp as int, aj.rep(), q);
                assert(pr[j as int] == cp % q);
                assert(ok == (polynomial@[j as int] == pr[j as int]));
            }
            verified = ct_and(verified, ok);
            j = j + 1;
        }
        proof {
            if verified {
                assert(polynomial@ =~= pr);
            }
        }
        verified
    }

    /// Verifies a received univariate polynomial as the projection of the
    /// committed bivariate polynomial at `y`: true exactly when the
    /// polynomial has one coefficient per row and each coefficient `a_i`
    /// satisfies `a_i * G == sum_j y^j * m[i][j]`.
    ///
    /// Only the size check returns early; the per-row results are accumulated
    /// without short-circuiting so that timing does not reveal which
    /// coefficient of a secret slice failed to verify.
    pub fn verify_y(&self, y: &G::Scalar, polynomial: &Polynomial<G::Scalar>) -> (r: bool)
        requires
            self.wf(),
        ensures
            r == (polynomial@ == proj_y(
                self@,
                y.rep(),
                self.rows as int,
                self.cols as int,
                Self::order(),
            )),
    {
        proof {
            <G::Scalar as FieldElement>::order_nontrivial();
        }
        let ghost q = Self::order();
        let ghost pr = proj_y(self@, y.rep(), self.rows as int, self.cols as int, q);
        // Short-circuit on the size of the polynomial, not on its contents.
        if polynomial.size() != self.rows {
            proof {
                assert(polynomial@.len() != pr.len());
            }
            return false;
        }
        let ypows = powers(y, self.cols - 1);
        let g = G::generator();
        let mut verified = true;
        let mut i: usize = 0;
        while i < self.rows
            invariant
                i <= self.rows,
                q == Self::order(),
                q > 1,
                self.wf(),
                polynomial@.len() == self.rows,
                pr == proj_y(self@, y.rep(), self.rows as int, self.cols as int, q),
                g.rep() == 1,
                ypows@.len() == self.cols,
                forall|n: int| 0 <= n < self.cols ==> (#[trigger] ypows@[n]).rep()
                    == npow(y.rep(), n as nat) % q,
                verified == (forall|t: int| 0 <= t < i ==> polynomial@[t] == pr[t]),
            decreases self.rows - i,
        {
            let ai = match polynomial.coefficient(i) {
                Some(a) => a,
                None => {
                    proof {
                        assert(false);
                    }
                    G::Scalar::zero()
                },
            };
            let mut diff = g.scalar_mul(&ai);
            proof {
                ai.rep_reduced();
                lemma_small_mod(ai.rep(), q);
                assert(diff.rep() == ai.rep());
                lemma_mod_twice(ai.rep() as int, q as int);
                assert(diff.rep() as int == (ai.rep() as int - psum(
                    self@[i as int],
                    y.rep(),
                    0,
                ) as int) % (q as int));
            }
            let mut j: usize = 0;
            while j < self.cols
                invariant
                    j <= self.cols,
                    i < self.rows,
                    q == Self::order(),
                    q > 1,
                    self.wf(),
                    polynomial@.len() == self.rows,
                    ai.rep() == polynomial@[i as int],
                    ai.rep() < q,
                    g.rep() == 1,
                    ypows@.len() == self.cols,
                    forall|n: int| 0 <= n < self.cols ==> (#[trigger] ypows@[n]).rep()
                        == npow(y.rep(), n as nat) % q,
                    diff.rep() as int == (ai.rep() as int - psum(
                        self@[i as int],
                        y.rep(),
                        j as int,
                    ) as int) % (q as int),
                decreases self.cols - j,
            {
                let t = self.m[i][j].scalar_mul(&ypows[j]);
                let nt = t.neg();
                proof {
                    let c = self@[i as int][j as int];
                    assert(self.m@[i as int]@[j as int].rep() == c);
                    let py = npow(y.rep(), j as nat);
                    lemma_mul_mod_noop_right(c as int, py as int, q as int);
                    assert(t.rep() == (c * py) % q);
                    t.rep_reduced();
                    nt.rep_reduced();
                    let d = ai.rep() as int - psum(self@[i as int], y.rep(), j as int) as int;
                    lemma_add_inverse_mod(d, t.rep(), nt.rep(), q);
                    lemma_mod_bound((c * py) as int, q as int);
                    lemma_sub_mod_noop_right(d, (c * py) as int, q as int);
                    assert(psum(self@[i as int], y.rep(), j + 1) == psum(
                        self@[i as int],
                        y.rep(),
                        j as int,
                    ) + c * py);
                }
                diff = diff.add(nt);
                j = j + 1;
            }
            let ok = diff.is_identity();
            proof {
                let cp = psum(self@[i as int], y.rep(), self.cols as int);
                assert(self@[i as int].len() == self.cols);
                lemma_neg_zero(ai.rep() as int - cp as int, q);
                lemma_diff_zero(cp as int, ai.rep(), q);
                assert(pr[i as int] == cp % q);
                assert(ok == (polynomial@[i as int] == pr[i as int]));
            }
            verified = ct_and(verified, ok);
            i = i + 1;
        }
        proof {
            if verified {
                assert(polynomial@ =~= pr);
            }
        }
        verified
    }

    /// Adds two verification matrices cell-wise in the group.  The result has
    /// the larger dimension along each axis; a cell absent from one operand
    /// contributes the group identity, as a zero coefficient would.
    pub fn add(&self, rhs: &Self) -> (r: Self)
        requires
            self.wf(),
            rhs.wf(),
        ensures
            r.wf(),
            r.rows == if self.rows >= rhs.rows { self.rows } else { rhs.rows },
            r.cols == if self.cols >= rhs.cols { self.cols } else { rhs.cols },
            r@ == grid_add(self@, rhs@, r.rows as int, r.cols as int, Self::order()),
    {
        proof {
            <G::Scalar as FieldElement>::order_nontrivial();
        }
        let ghost q = Self::order();
        let rows: usize = if self.rows >= rhs.rows { self.rows } else { rhs.rows };
        let cols: usize = if self.cols >= rhs.cols { self.cols } else { rhs.cols };
        let mut m: Vec<Vec<G>> = Vec::new();
        let mut i: usize = 0;
        while i < rows
            invariant
                i <= rows,
                q == Self::order(),
                q > 1,
                self.wf(),
                rhs.wf(),
                rows >= self.rows,
                rows >= rhs.rows,
                cols >= self.cols,
                cols >= rhs.cols,
                1 <= rows <= 256,
                1 <= cols <= 256,
                m@.len() == i,
                forall|n: int| 0 <= n < i ==> (#[trigger] m@[n])@.len() == cols,
                forall|n: int, t: int|
                    0 <= n < i && 0 <= t < cols ==> (#[trigger] m@[n]@[t]).rep() == (cell(
                        self@,
                        n,
                        t,
                    ) + cell(rhs@, n, t)) % q,
            decreases rows - i,
        {
            let mut row: Vec<G> = Vec::new();
            let mut j: usize = 0;
            while j < cols
                invariant
                    j <= cols,
                    i < rows,
                    q == Self::order(),
                    q > 1,
                    self.wf(),
                    rhs.wf(),
                    rows >= self.rows,
                    rows >= rhs.rows,
                    cols >= self.cols,
                    cols >= rhs.cols,
                    row@.len() == j,
                    forall|t: int|
                        0 <= t < j ==> (#[trigger] row@[t]).rep() == (cell(self@, i as int, t)
                            + cell(rhs@, i as int, t)) % q,
                decreases cols - j,
            {
                let in_a = i < self.rows && j < self.cols;
                let in_b = i < rhs.rows && j < rhs.cols;
                let s = if in_a && in_b {
                    self.m[i][j].add(rhs.m[i][j])
                } else if in_a {
                    let e = self.m[i][j];
                    proof {
                        e.rep_reduced();
                        lemma_small_mod(e.rep(), q);
                    }
                    e
                } else if in_b {
                    let e = rhs.m[i][j];
                    proof {
                        e.rep_reduced();
                        lemma_small_mod(e.rep(), q);
                    }
                    e
                } else {
                    let e = G::identity();
                    proof {
                        lemma_small_mod(0, q);
                    }
                    e
                };
                row.push(s);
                j = j + 1;
            }
            m.push(row);
            i = i + 1;
        }
        let r = VerificationMatrix { rows, cols, m };
        proof {
            assert(r@ =~~= grid_add(self@, rhs@, rows as int, cols as int, q));
        }
        r
    }

    /// Adds another matrix into this one cell-wise.  When this matrix is at
    /// least as large as the operand along both axes the cells are updated in
    /// place; otherwise the general combine builds the enlarged grid and
    /// replaces this matrix with it.
    pub fn add_assign(&mut self, rhs: &Self)
        requires
            old(self).wf(),
            rhs.wf(),
        ensures
            final(self).wf(),
            final(self).rows == if old(self).rows >= rhs.rows {
                old(self).rows
            } else {
                rhs.rows
            },
            final(self).cols == if old(self).cols >= rhs.cols {
                old(self).cols
            } else {
                rhs.cols
            },
            final(self)@ == grid_add(
                old(self)@,
                rhs@,
                final(self).rows as int,
                final(self).cols as int,
                Self::order(),
            ),
    {
        proof {
            <G::Scalar as FieldElement>::order_nontrivial();
        }
        let ghost q = Self::order();
        if self.rows < rhs.rows || self.cols < rhs.cols {
            let sum = self.add(rhs);
            *self = sum;
            return;
        }
        let rows: usize = self.rows;
        let cols: usize = self.cols;
        let mut i: usize = 0;
        while i < rhs.rows
            invariant
                i <= rhs.rows,
                q == Self::order(),
                q > 1,
                old(self).wf(),
                rhs.wf(),
                rhs.rows <= rows,
                rhs.cols <= cols,
                self.rows == rows,
                self.cols == cols,
                rows == old(self).rows,
                cols == old(self).cols,
                self.m@.len() == rows,
                forall|n: int| 0 <= n < rows ==> (#[trigger] self.m@[n])@.len() == cols,
                forall|n: int, t: int|
                    0 <= n < i && 0 <= t < rhs.cols ==> (#[trigger] self.m@[n]@[t]).rep() == (
                    cell(old(self)@, n, t) + cell(rhs@, n, t)) % q,
                forall|n: int, t: int|
                    0 <= n < rows && 0 <= t < cols && !(n < i && t < rhs.cols)
                        ==> (#[trigger] self.m@[n]@[t]) == old(self).m@[n]@[t],
            decreases rhs.rows - i,
        {
            let mut j: usize = 0;
            while j < rhs.cols
                invariant
                    j <= rhs.cols,
                    i < rhs.rows,
                    q == Self::order(),
                    q > 1,
                    old(self).wf(),
                    rhs.wf(),
                    rhs.rows <= rows,
                    rhs.cols <= cols,
                    self.rows == rows,
                    self.cols == cols,
                    rows == old(self).rows,
                    cols == old(self).cols,
                    self.m@.len() == rows,
                    forall|n: int| 0 <= n < rows ==> (#[trigger] self.m@[n])@.len() == cols,
                    forall|n: int, t: int|
                        0 <= n < i && 0 <= t < rhs.cols ==> (#[trigger] self.m@[n]@[t]).rep()
                            == (cell(old(self)@, n, t) + cell(rhs@, n, t)) % q,
                    forall|t: int|
                        0 <= t < j ==> (#[trigger] self.m@[i as int]@[t]).rep() == (cell(
                            old(self)@,
                            i as int,
                            t,
                        ) + cell(rhs@, i as int, t)) % q,
                    forall|n: int, t: int|
                        0 <= n < rows && 0 <= t < cols && !(n < i && t < rhs.cols) && !(n == i
                            && t < j) ==> (#[trigger] self.m@[n]@[t]) == old(self).m@[n]@[t],
                decreases rhs.cols - j,
            {
                let s = self.m[i][j].add(rhs.m[i][j]);
                self.m[i][j] = s;
                j = j + 1;
            }
            i = i + 1;
        }
        proof {
            old(self).view_props();
            assert forall|n: int, t: int|
                0 <= n < rows && 0 <= t < cols && !(n < rhs.rows as int && t < rhs.cols as int)
                implies (#[trigger] self.m@[n]@[t]).rep() == (cell(old(self)@, n, t) + cell(
                rhs@,
                n,
                t,
            )) % q by {
                assert(self.m@[n]@[t] == old(self).m@[n]@[t]);
                assert(cell(rhs@, n, t) == 0);
                assert(old(self)@[n][t] == old(self).m@[n]@[t].rep());
                lemma_small_mod(old(self)@[n][t], q);
            }
            assert(final(self)@ =~~= grid_add(
                old(self)@,
                rhs@,
                rows as int,
                cols as int,
                q,
            ));
        }
    }

    /// The byte encoding of this matrix: one byte for each degree, then the
    /// canonical encodings of the cells in row-major order.
    pub open spec fn spec_bytes(self) -> Seq<u8> {
        seq![(self.rows - 1) as u8, (self.cols - 1) as u8] + ser_grid::<G>(
            self@,
            self.rows as int,
        )
    }

    /// What decoding promises: a decoded matrix is well-formed and encodes
    /// back to the input, and decoding fails exactly on the byte strings
    /// that no well-formed matrix encodes to.
    pub open spec fn from_bytes_post(bytes: Seq<u8>, r: Option<VerificationMatrix<G>>) -> bool {
        match r {
            Some(mx) => mx.wf() && bytes == mx.spec_bytes(),
            None => forall|mx: VerificationMatrix<G>| mx.wf() ==> bytes != #[trigger] mx.spec_bytes(),
        }
    }

    /// The size of the byte encoding of one matrix element.
    pub fn element_byte_size() -> (r: usize)
        ensures
            r as nat == G::enc_len(),
    {
        G::byte_size()
    }

    /// The size of the byte encoding of a matrix with the given dimensions.
    pub fn byte_size(rows: usize, cols: usize) -> (r: usize)
        requires
            1 <= rows <= 256,
            1 <= cols <= 256,
        ensures
            r == 2 + rows * cols * G::enc_len(),
    {
        proof {
            <G::Scalar as FieldElement>::order_nontrivial();
            G::enc_len_bounds(0);
            assert(rows * cols <= 65536 && rows * cols * G::enc_len() <= 536870912)
                by (nonlinear_arith)
                requires
                    0 <= rows <= 256,
                    0 <= cols <= 256,
                    0 <= G::enc_len() <= 8192,
            ;
        }
        2 + rows * cols * Self::element_byte_size()
    }

    /// Encodes this matrix: the two degree bytes followed by each cell's
    /// canonical encoding, row-major.
    pub fn to_bytes(&self) -> (r: Vec<u8>)
        requires
            self.wf(),
        ensures
            r@ == self.spec_bytes(),
            r@.len() == 2 + self.rows * self.cols * G::enc_len(),
    {
        proof {
            <G::Scalar as FieldElement>::order_nontrivial();
            self.view_props();
        }
        let ghost hdr = seq![(self.rows - 1) as u8, (self.cols - 1) as u8];
        let mut bytes: Vec<u8> = Vec::new();
        bytes.push((self.rows - 1) as u8);
        bytes.push((self.cols - 1) as u8);
        proof {
            assert(bytes@ =~= hdr + ser_grid::<G>(self@, 0));
        }
        let mut i: usize = 0;
        while i < self.rows
            invariant
                i <= self.rows,
                self.wf(),
                hdr == seq![(self.rows - 1) as u8, (self.cols - 1) as u8],
                bytes@ == hdr + ser_grid::<G>(self@, i as int),
            decreases self.rows - i,
        {
            let ghost row_done = bytes@;
            let mut j: usize = 0;
            while j < self.cols
                invariant
                    j <= self.cols,
                    i < self.rows,
                    self.wf(),
                    row_done == hdr + ser_grid::<G>(self@, i as int),
                    bytes@ == row_done + crate::vss::wire::ser_row::<G>(
                        self@[i as int],
                        j as int,
                    ),
                decreases self.cols - j,
            {
                let mut eb = self.m[i][j].to_bytes();
                proof {
                    assert(self@[i as int][j as int] == self.m@[i as int]@[j as int].rep());
                    assert(eb@ == G::enc(self@[i as int][j as int]));
                    assert(bytes@ + eb@ =~= row_done + crate::vss::wire::ser_row::<G>(
                        self@[i as int],
                        j + 1,
                    ));
                }
                bytes.append(&mut eb);
                j = j + 1;
            }
            proof {
                assert(self@[i as int].len() == self.cols);
                assert(bytes@ =~= hdr + ser_grid::<G>(self@, i + 1));
            }
            i = i + 1;
        }
        proof {
            self.view_props();
            lemma_ser_grid_len::<G>(self@, self.rows as int, self.cols as int);
            assert(bytes@ =~= self.spec_bytes());
        }
        bytes
    }

    /// Decodes a matrix from its byte encoding.  Returns the matrix exactly
    /// when the input is the encoding of a well-formed matrix: two degree
    /// bytes, then one canonically encoded group element per cell and
    /// nothing else.  Rejects every other byte string, never panicking on
    /// adversarial input.
    ///
    /// Not constant time: a verification matrix is public data.
    pub fn from_bytes(bytes: &[u8]) -> (r: Option<Self>)
        ensures
            Self::from_bytes_post(bytes@, r),
    {
        proof {
            <G::Scalar as FieldElement>::order_nontrivial();
            G::enc_len_bounds(0);
        }
        let ghost q = Self::order();
        let ghost l = G::enc_len() as int;
        if bytes.len() < 2 {
            proof {
                assert forall|mx: VerificationMatrix<G>| mx.wf() implies bytes@
                    != #[trigger] mx.spec_bytes() by {
                    assert(mx.spec_bytes().len() >= 2);
                }
            }
            return None;
        }
        let deg_x: u8 = *slice_index_get(bytes, 0);
        let deg_y: u8 = *slice_index_get(bytes, 1);
        let rows: usize = deg_x as usize + 1;
        let cols: usize = deg_y as usize + 1;
        let expected: usize = Self::byte_size(rows, cols);
        if bytes.len() != expected {
            proof {
                assert forall|mx: VerificationMatrix<G>| mx.wf() implies bytes@
                    != #[trigger] mx.spec_bytes() by {
                    if bytes@ == mx.spec_bytes() {
                        assert(bytes@[0] == (mx.rows - 1) as u8);
                        assert(bytes@[1] == (mx.cols - 1) as u8);
                        assert(mx.rows == rows && mx.cols == cols);
                        mx.view_props();
                        lemma_ser_grid_len::<G>(mx@, mx.rows as int, mx.cols as int);
                        assert(mx.spec_bytes().len() == 2 + rows * cols * G::enc_len());
                    }
                }
            }
            return None;
        }
        let esize: usize = Self::element_byte_size();
        let blen: usize = bytes.len();
        let mut m: Vec<Vec<G>> = Vec::new();
        let mut off: usize = 2;
        let mut i: usize = 0;
        proof {
            assert((0 * cols) * l == 0) by (nonlinear_arith);
        }
        while i < rows
            invariant
                i <= rows,
                q == Self::order(),
                q > 1,
                l == G::enc_len(),
                1 <= l <= 8192,
                esize as int == l,
                1 <= rows <= 256,
                1 <= cols <= 256,
                bytes@.len() == 2 + rows * cols * l,
                blen as int == 2 + rows * cols * l,
                bytes@[0] as int + 1 == rows,
                bytes@[1] as int + 1 == cols,
                off as int == 2 + (i * cols) * l,
                m@.len() == i,
                forall|n: int| 0 <= n < i ==> (#[trigger] m@[n])@.len() == cols,
                forall|n: int, t: int|
                    0 <= n < i && 0 <= t < cols ==> G::enc((#[trigger] m@[n]@[t]).rep())
                        == bytes@.subrange(
                        2 + (n * cols + t) * l,
                        2 + (n * cols + t + 1) * l,
                    ),
            decreases rows - i,
        {
            let mut row: Vec<G> = Vec::new();
            let mut j: usize = 0;
            while j < cols
                invariant
                    j <= cols,
                    i < rows,
                    q == Self::order(),
                    q > 1,
                    l == G::enc_len(),
                    1 <= l <= 8192,
                    esize as int == l,
                    1 <= rows <= 256,
                    1 <= cols <= 256,
                    bytes@.len() == 2 + rows * cols * l,
                    blen as int == 2 + rows * cols * l,
                    bytes@[0] as int + 1 == rows,
                    bytes@[1] as int + 1 == cols,
                    off as int == 2 + (i * cols + j) * l,
                    m@.len() == i,
                    forall|n: int| 0 <= n < i ==> (#[trigger] m@[n])@.len() == cols,
                    forall|n: int, t: int|
                        0 <= n < i && 0 <= t < cols ==> G::enc((#[trigger] m@[n]@[t]).rep())
                            == bytes@.subrange(
                            2 + (n * cols + t) * l,
                            2 + (n * cols + t + 1) * l,
                        ),
                    row@.len() == j,
                    forall|t: int|
                        0 <= t < j ==> G::enc((#[trigger] row@[t]).rep()) == bytes@.subrange(
                            2 + (i * cols + t) * l,
                            2 + (i * cols + t + 1) * l,
                        ),
                decreases cols - j,
            {
                proof {
                    assert((i * cols + j) * l + l == (i * cols + j + 1) * l
                        && (i * cols + j + 1) * l <= rows * cols * l) by (nonlinear_arith)
                        requires
                            0 <= i,
                            0 <= j,
                            0 <= l,
                            0 <= cols,
                            i < rows,
                            j < cols,
                    ;
                    assert(off as int + esize as int <= blen as int);
                }
                let chunk = slice_subrange(bytes, off, off + esize);
                let e = match G::from_bytes(chunk) {
                    Some(e) => e,
                    None => {
                        proof {
                            assert forall|mx: VerificationMatrix<G>| mx.wf() implies bytes@
                                != #[trigger] mx.spec_bytes() by {
                                if bytes@ == mx.spec_bytes() {
                                    assert(bytes@[0] == (mx.rows - 1) as u8);
                                    assert(bytes@[1] == (mx.cols - 1) as u8);
                                    assert(mx.rows == rows && mx.cols == cols);
                                    mx.view_props();
                                    lemma_ser_grid_index::<G>(
                                        mx@,
                                        rows as int,
                                        cols as int,
                                        i as int,
                                        j as int,
                                    );
                                    assert(ser_grid::<G>(mx@, rows as int) =~= bytes@.subrange(
                                        2,
                                        bytes@.len() as int,
                                    ));
                                    assert(ser_grid::<G>(mx@, rows as int).subrange(
                                        (i * cols + j) * l,
                                        (i * cols + j + 1) * l,
                                    ) =~= bytes@.subrange(off as int, off as int + l));
                                    assert(chunk@ == G::enc(mx@[i as int][j as int]));
                                }
                            }
                        }
                        return None;
                    },
                };
                row.push(e);
                off = off + esize;
                j = j + 1;
            }
            m.push(row);
            proof {
                assert((i * cols + cols) * l == ((i + 1) * cols) * l) by (nonlinear_arith);
            }
            i = i + 1;
        }
        let r = VerificationMatrix { rows, cols, m };
        proof {
            r.view_props();
            assert forall|n: int, t: int| 0 <= n < rows && 0 <= t < cols implies G::enc(
                #[trigger] r@[n][t],
            ) == bytes@.subrange(2 + (n * cols + t) * l, 2 + (n * cols + t + 1) * l) by {
                assert(r@[n][t] == r.m@[n]@[t].rep());
            }
            lemma_ser_grid_from_chunks::<G>(r@, rows as int, cols as int, bytes@);
            assert(bytes@ =~= r.spec_bytes());
        }
        Some(r)
    }
}

/// Point verification is complete and sound.  For every bivariate
/// polynomial `B` and point `(x, y)`, the residue that
/// `verify` compares the claimed value against on the matrix committed to
/// `B` is exactly the residue of `B.eval_x(x).eval(y)`; so the true
/// evaluation is accepted and every other residue is rejected.
pub proof fn lemma_point_verification<G: GroupElement>(
    m: VerificationMatrix<G>,
    bp: BivariatePolynomial<G::Scalar>,
    x: G::Scalar,
    y: G::Scalar,
)
    requires
        bp.wf(),
        m.wf(),
        m.rows == bp.deg_x + 1,
        m.cols == bp.deg_y + 1,
        m@ == commit_grid(bp@, VerificationMatrix::<G>::order()),
    ensures
        mat_sum(m@, x.rep(), y.rep(), m.rows as int) % VerificationMatrix::<G>::order() == psum(
            proj_x(
                bp@,
                x.rep(),
                (bp.deg_x + 1) as int,
                (bp.deg_y + 1) as int,
                VerificationMatrix::<G>::order(),
            ),
            y.rep(),
            (bp.deg_y + 1) as int,
        ) % VerificationMatrix::<G>::order(),
{
    let q = VerificationMatrix::<G>::order();
    <G::Scalar as FieldElement>::order_nontrivial();
    lemma_commitment_residues(m, bp);
    m.view_props();
    crate::sums::lemma_matrix_eval(
        m@,
        x.rep(),
        y.rep(),
        m.rows as int,
        m.cols as int,
        q,
    );
}

/// Committing changes no residue: the grid of a matrix committed to a
/// bivariate polynomial equals the polynomial's own residue grid, cell for
/// cell — each cell is the generator, of discrete logarithm one, scaled by
/// the coefficient.
pub proof fn lemma_commitment_residues<G: GroupElement>(
    m: VerificationMatrix<G>,
    bp: BivariatePolynomial<G::Scalar>,
)
    requires
        bp.wf(),
        m@ == commit_grid(bp@, VerificationMatrix::<G>::order()),
    ensures
        m@ == bp@,
{
    let q = VerificationMatrix::<G>::order();
    <G::Scalar as FieldElement>::order_nontrivial();
    bp.view_reduced();
    assert forall|i: int, j: int|
        0 <= i < bp@.len() && 0 <= j < bp@[i].len() implies commit_grid(bp@, q)[i][j]
        == bp@[i][j] by {
        lemma_small_mod(bp@[i][j], q);
    }
    assert(commit_grid(bp@, q) =~~= bp@);
}

/// Projection verification is consistent along the first axis: the column
/// projections of a matrix committed to `B` equal the coefficients of
/// `B.eval_x(x)`, so `verify_x` accepts exactly that slice at `x`; a slice
/// of the wrong size or content compares unequal and is rejected.
pub proof fn lemma_projection_x<G: GroupElement>(
    m: VerificationMatrix<G>,
    bp: BivariatePolynomial<G::Scalar>,
    x: G::Scalar,
)
    requires
        bp.wf(),
        m.wf(),
        m.rows == bp.deg_x + 1,
        m.cols == bp.deg_y + 1,
        m@ == commit_grid(bp@, VerificationMatrix::<G>::order()),
    ensures
        proj_x(
            m@,
            x.rep(),
            m.rows as int,
            m.cols as int,
            VerificationMatrix::<G>::order(),
        ) == proj_x(
            bp@,
            x.rep(),
            (bp.deg_x + 1) as int,
            (bp.deg_y + 1) as int,
            VerificationMatrix::<G>::order(),
        ),
{
    lemma_commitment_residues(m, bp);
}

/// Projection verification is consistent along the second axis, and vector
/// extraction agrees with evaluation: the row projections of a matrix
/// committed to `B` equal the coefficients of `B.eval_y(y)`, so `verify_y`
/// accepts exactly that slice, and the vector from
/// `verification_vector_for_x(y)` answers `is_from` truthfully for it.
pub proof fn lemma_projection_y<G: GroupElement>(
    m: VerificationMatrix<G>,
    bp: BivariatePolynomial<G::Scalar>,
    y: G::Scalar,
)
    requires
        bp.wf(),
        m.wf(),
        m.rows == bp.deg_x + 1,
        m.cols == bp.deg_y + 1,
        m@ == commit_grid(bp@, VerificationMatrix::<G>::order()),
    ensures
        proj_y(
            m@,
            y.rep(),
            m.rows as int,
            m.cols as int,
            VerificationMatrix::<G>::order(),
        ) == proj_y(
            bp@,
            y.rep(),
            (bp.deg_x + 1) as int,
            (bp.deg_y + 1) as int,
            VerificationMatrix::<G>::order(),
        ),
{
    lemma_commitment_residues(m, bp);
}

/// Homomorphism: committing to the coefficient-wise sum of two bivariate
/// polynomials gives the cell-wise group sum of the two commitments, the
/// smaller operand padded with zero coefficients or identity cells.
pub proof fn lemma_additive_homomorphism(
    b1: Seq<Seq<nat>>,
    b2: Seq<Seq<nat>>,
    rows: int,
    cols: int,
    q: nat,
)
    requires
        q > 0,
        rows >= 0,
        cols >= 0,
    ensures
        commit_grid(grid_add(b1, b2, rows, cols, q), q) == grid_add(
            commit_grid(b1, q),
            commit_grid(b2, q),
            rows,
            cols,
            q,
        ),
{
    let s = grid_add(b1, b2, rows, cols, q);
    let lhs = commit_grid(s, q);
    let rhs = grid_add(commit_grid(b1, q), commit_grid(b2, q), rows, cols, q);
    assert forall|i: int, j: int| 0 <= i < rows && 0 <= j < cols implies lhs[i][j]
        == rhs[i][j] by {
        let c1 = cell(b1, i, j);
        let c2 = cell(b2, i, j);
        lemma_mod_twice((c1 + c2) as int, q as int);
        lemma_small_mod(0, q);
        if 0 <= i < b1.len() && 0 <= j < b1[i].len() {
            assert(cell(commit_grid(b1, q), i, j) == c1 % q);
        } else {
            assert(cell(commit_grid(b1, q), i, j) == 0);
            assert(c1 == 0);
        }
        if 0 <= i < b2.len() && 0 <= j < b2[i].len() {
            assert(cell(commit_grid(b2, q), i, j) == c2 % q);
        } else {
            assert(cell(commit_grid(b2, q), i, j) == 0);
            assert(c2 == 0);
        }
        vstd::arithmetic::div_mod::lemma_add_mod_noop(c1 as int, c2 as int, q as int);
        assert(rhs[i][j] == (cell(commit_grid(b1, q), i, j) + cell(
            commit_grid(b2, q),
            i,
            j,
        )) % q);
        assert(s[i].len() == cols as nat);
        assert(lhs[i][j] == s[i][j] % q);
        assert(s[i][j] == (c1 + c2) % q);
    }
    assert(lhs.len() == rhs.len());
    assert forall|i: int| 0 <= i < lhs.len() implies lhs[i] =~= rhs[i] by {
        assert(s[i].len() == cols as nat);
        assert(lhs[i].len() == s[i].len());
        assert(rhs[i].len() == cols as nat);
        assert forall|j: int| 0 <= j < cols implies lhs[i][j] == rhs[i][j] by {
            assert(0 <= i < rows && 0 <= j < cols);
        }
    }
    assert(lhs =~~= rhs);
}

/// Serialization round-trips: decoding the encoding of a well-formed matrix
/// cannot fail and returns a matrix with the same dimensions committing to
/// the same residues, because the encoding determines both.
pub proof fn lemma_serialization_round_trip<G: GroupElement>(
    m: VerificationMatrix<G>,
    r: Option<VerificationMatrix<G>>,
)
    requires
        m.wf(),
        VerificationMatrix::<G>::from_bytes_post(m.spec_bytes(), r),
    ensures
        r matches Some(m2) && m2.rows == m.rows && m2.cols == m.cols && m2@ == m@,
{
    <G::Scalar as FieldElement>::order_nontrivial();
    let q = VerificationMatrix::<G>::order();
    match r {
        None => {
            assert(m.spec_bytes() == m.spec_bytes());
            assert(false);
        },
        Some(m2) => {
            let bytes = m.spec_bytes();
            assert(bytes[0] == (m.rows - 1) as u8 && bytes[0] == (m2.rows - 1) as u8);
            assert(bytes[1] == (m.cols - 1) as u8 && bytes[1] == (m2.cols - 1) as u8);
            assert(m2.rows == m.rows && m2.cols == m.cols);
            m.view_props();
            m2.view_props();
            let g1 = ser_grid::<G>(m@, m.rows as int);
            let g2 = ser_grid::<G>(m2@, m.rows as int);
            assert(g1 =~= g2) by {
                assert(bytes == m2.spec_bytes());
                lemma_ser_grid_len::<G>(m@, m.rows as int, m.cols as int);
                lemma_ser_grid_len::<G>(m2@, m.rows as int, m.cols as int);
                assert forall|t: int| 0 <= t < g1.len() implies g1[t] == g2[t] by {
                    assert(m.spec_bytes()[2 + t] == g1[t]);
                    assert(m2.spec_bytes()[2 + t] == g2[t]);
                }
            }
            assert forall|i: int, j: int|
                0 <= i < m.rows && 0 <= j < m.cols implies m2@[i][j] == m@[i][j] by {
                lemma_ser_grid_index::<G>(m@, m.rows as int, m.cols as int, i, j);
                lemma_ser_grid_index::<G>(m2@, m.rows as int, m.cols as int, i, j);
                G::enc_injective(m@[i][j], m2@[i][j]);
            }
            assert(m2@ =~~= m@);
        },
    }
}

impl<G: GroupElement> PartialEq for VerificationMatrix<G> {
    /// Two matrices are equal when their dimensions agree and every pair of
    /// corresponding cells holds the same group element.
    fn eq(&self, other: &Self) -> (r: bool) {
        if self.rows != other.rows || self.cols != other.cols {
            return false;
        }
        if self.m.len() != other.m.len() {
            proof {
                assert(self@.len() == self.m@.len());
                assert(other@.len() == other.m@.len());
            }
            return false;
        }
        let mut i: usize = 0;
        while i < self.m.len()
            invariant
                i <= self.m@.len(),
                self.m@.len() == other.m@.len(),
                self.rows == other.rows,
                self.cols == other.cols,
                forall|n: int| 0 <= n < i ==> self@[n] == other@[n],
            decreases self.m@.len() - i,
        {
            let a: usize = self.m[i].len();
            let b: usize = other.m[i].len();
            if a != b {
                proof {
                    assert(self@[i as int].len() != other@[i as int].len());
                }
                return false;
            }
            let mut j: usize = 0;
            while j < a
                invariant
                    j <= a,
                    i < self.m@.len(),
                    self.m@.len() == other.m@.len(),
                    a == self.m@[i as int]@.len(),
                    a == other.m@[i as int]@.len(),
                    forall|t: int| 0 <= t < j ==> self@[i as int][t] == other@[i as int][t],
                decreases a - j,
            {
                if !self.m[i][j].eq_elem(&other.m[i][j]) {
                    proof {
                        assert(self@[i as int][j as int] != other@[i as int][j as int]);
                    }
                    return false;
                }
                j = j + 1;
            }
            proof {
                assert(self@[i as int] =~= other@[i as int]);
            }
            i = i + 1;
        }
        proof {
            assert(self@ =~~= other@);
        }
        true
    }
}

impl<G: GroupElement> vstd::std_specs::cmp::PartialEqSpecImpl for VerificationMatrix<G> {
    open spec fn obeys_eq_spec() -> bool {
        true
    }

    open spec fn eq_spec(&self, other: &Self) -> bool {
        self.rows == other.rows && self.cols == other.cols && self@ == other@
    }
}

} // verus!
