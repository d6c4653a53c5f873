//! Univariate and bivariate polynomials over the scalar field.
//!
//! Coefficients are stored by declared degree: the list is never trimmed, and
//! the verification protocols rely on the declared sizes matching the
//! commitment's dimensions exactly.  A polynomial's view is the sequence of
//! residues of its coefficients; a bivariate polynomial's view is the grid of
//! residues `b[i][j]` of the coefficient of `x^i y^j`.

use crate::algebra::FieldElement;
use crate::sums::{cpsum, grid_add, lemma_accum_step, npow, proj_x, proj_y, psum};
use vstd::arithmetic::div_mod::{lemma_mod_bound, lemma_mul_mod_noop_left, lemma_small_mod};
use vstd::prelude::*;

verus! {

/// A univariate polynomial `A(z) = sum_k a[k] * z^k` over the field `S`.
pub struct Polynomial<S> {
    /// The coefficients, index `k` holding the coefficient of `z^k`.
    pub a: Vec<S>,
}

impl<S: FieldElement> View for Polynomial<S> {
    type V = Seq<nat>;

    open spec fn view(&self) -> Seq<nat> {
        Seq::new(self.a@.len(), |k: int| self.a@[k].rep())
    }
}

impl<S: FieldElement> Polynomial<S> {
    /// Every coefficient residue is reduced.
    pub proof fn view_reduced(&self)
        ensures
            forall|k: int| 0 <= k < self@.len() ==> #[trigger] self@[k] < S::order(),
    {
        assert forall|k: int| 0 <= k < self@.len() implies #[trigger] self@[k] < S::order() by {
            self.a@[k].rep_reduced();
        }
    }

    /// Wraps a coefficient list as a polynomial of declared degree
    /// one less than the list's length.
    pub fn with_coefficients(a: Vec<S>) -> (r: Self)
        ensures
            r.a@ == a@,
            r@.len() == a@.len(),
    {
        Polynomial { a }
    }

    /// The number of coefficients, the declared degree plus one.
    pub fn size(&self) -> (r: usize)
        ensures
            r == self@.len(),
    {
        self.a.len()
    }

    /// The coefficient of `z^k`, defined for `k` below the size.
    pub fn coefficient(&self, k: usize) -> (r: Option<S>)
        ensures
            match r {
                Some(s) => k < self@.len() && s.rep() == self@[k as int],
                None => k >= self@.len(),
            },
    {
        if k < self.a.len() {
            Some(self.a[k])
        } else {
            None
        }
    }

    /// Evaluates the polynomial at `p` by summing coefficients against the
    /// successive powers of `p`.
    pub fn eval(&self, p: &S) -> (r: S)
        ensures
            r.rep() == psum(self@, p.rep(), self@.len() as int) % S::order(),
    {
        proof {
            S::order_nontrivial();
        }
        let ghost q = S::order();
        let mut acc = S::zero();
        let mut pw = S::one();
        proof {
            lemma_small_mod(0, q);
            lemma_small_mod(1, q);
        }
        let mut k: usize = 0;
        while k < self.a.len()
            invariant
                k <= self.a@.len(),
                q == S::order(),
                q > 1,
                acc.rep() == psum(self@, p.rep(), k as int) % q,
                pw.rep() == npow(p.rep(), k as nat) % q,
            decreases self.a@.len() - k,
        {
            let term = self.a[k].mul(pw);
            proof {
                lemma_accum_step(
                    psum(self@, p.rep(), k as int),
                    self.a@[k as int].rep(),
                    npow(p.rep(), k as nat),
                    pw.rep(),
                    acc.rep(),
                    q,
                );
                assert(self@[k as int] == self.a@[k as int].rep());
                assert(npow(p.rep(), (k + 1) as nat) == p.rep() * npow(p.rep(), k as nat));
                lemma_mul_mod_noop_left(npow(p.rep(), k as nat) as int, p.rep() as int, q as int);
                assert((pw.rep() * p.rep()) % q == (npow(p.rep(), k as nat) * p.rep()) % q);
            }
            acc = acc.add(term);
            pw = pw.mul(*p);
            k = k + 1;
        }
        acc
    }
}

/// The successive powers `[x^0, x^1, ..., x^k]` of a scalar.
pub fn powers<S: FieldElement>(x: &S, k: usize) -> (r: Vec<S>)
    requires
        k <= 255,
    ensures
        r@.len() == k + 1,
        forall|i: int| 0 <= i <= k ==> (#[trigger] r@[i]).rep() == npow(x.rep(), i as nat)
            % S::order(),
{
    proof {
        S::order_nontrivial();
    }
    let ghost q = S::order();
    let mut r: Vec<S> = Vec::new();
    let mut pw = S::one();
    proof {
        lemma_small_mod(1, q);
    }
    let mut i: usize = 0;
    while i <= k
        invariant
            i <= k + 1,
            k <= 255,
            q == S::order(),
            q > 1,
            r@.len() == i,
            pw.rep() == npow(x.rep(), i as nat) % q,
            forall|n: int| 0 <= n < i ==> (#[trigger] r@[n]).rep() == npow(x.rep(), n as nat) % q,
        decreases k + 1 - i,
    {
        r.push(pw);
        proof {
            assert(npow(x.rep(), (i + 1) as nat) == x.rep() * npow(x.rep(), i as nat));
            lemma_mul_mod_noop_left(npow(x.rep(), i as nat) as int, x.rep() as int, q as int);
            assert((pw.rep() * x.rep()) % q == (npow(x.rep(), i as nat) * x.rep()) % q);
            assert(npow(x.rep(), i as nat) * x.rep() == x.rep() * npow(x.rep(), i as nat))
                by (nonlinear_arith);
            assert((pw.rep() * x.rep()) % q == npow(x.rep(), (i + 1) as nat) % q);
        }
        pw = pw.mul(*x);
        i = i + 1;
    }
    r
}

/// A bivariate polynomial `B(x, y) = sum_{i,j} b[i][j] * x^i y^j` over `S`,
/// stored as a rectangular coefficient grid of declared degrees.
pub struct BivariatePolynomial<S> {
    /// The degree in the first variable; the grid has `deg_x + 1` rows.
    pub deg_x: usize,
    /// The degree in the second variable; every row has `deg_y + 1` cells.
    pub deg_y: usize,
    /// The coefficient grid, row-major: `b[i][j]` multiplies `x^i y^j`.
    pub b: Vec<Vec<S>>,
}

impl<S: FieldElement> View for BivariatePolynomial<S> {
    type V = Seq<Seq<nat>>;

    open spec fn view(&self) -> Seq<Seq<nat>> {
        Seq::new(
            self.b@.len(),
            |i: int| Seq::new(self.b@[i]@.len(), |j: int| self.b@[i]@[j].rep()),
        )
    }
}

impl<S: FieldElement> BivariatePolynomial<S> {
    /// The grid is rectangular and matches the declared degrees, which the
    /// wire format caps at one byte each.
    pub open spec fn wf(self) -> bool {
        &&& self.b@.len() == self.deg_x + 1
        &&& self.deg_x <= 255
        &&& self.deg_y <= 255
        &&& forall|i: int| 0 <= i < self.b@.len() ==> (#[trigger] self.b@[i])@.len()
            == self.deg_y + 1
    }

    /// Every cell of the view is a reduced residue.
    pub proof fn view_reduced(&self)
        ensures
            crate::sums::grid_reduced(self@, S::order()),
    {
        assert forall|i: int, j: int|
            0 <= i < self@.len() && 0 <= j < self@[i].len() implies #[trigger] self@[i][j]
            < S::order() by {
            self.b@[i]@[j].rep_reduced();
        }
    }

    /// The zero polynomial of the given degrees: a grid of zero coefficients.
    pub fn zero(deg_x: usize, deg_y: usize) -> (r: Self)
        requires
            deg_x <= 255,
            deg_y <= 255,
        ensures
            r.wf(),
            r.deg_x == deg_x,
            r.deg_y == deg_y,
            forall|i: int, j: int|
                0 <= i <= deg_x && 0 <= j <= deg_y ==> #[trigger] r@[i][j] == 0,
    {
        let mut b: Vec<Vec<S>> = Vec::new();
        let mut i: usize = 0;
        while i <= deg_x
            invariant
                i <= deg_x + 1,
                deg_x <= 255,
                deg_y <= 255,
                b@.len() == i,
                forall|n: int| 0 <= n < i ==> (#[trigger] b@[n])@.len() == deg_y + 1,
                forall|n: int, j: int|
                    0 <= n < i && 0 <= j <= deg_y ==> (#[trigger] b@[n]@[j]).rep() == 0,
            decreases deg_x + 1 - i,
        {
            let mut row: Vec<S> = Vec::new();
            let mut j: usize = 0;
            while j <= deg_y
                invariant
                    j <= deg_y + 1,
                    deg_y <= 255,
                    row@.len() == j,
                    forall|n: int| 0 <= n < j ==> (#[trigger] row@[n]).rep() == 0,
                decreases deg_y + 1 - j,
            {
                row.push(S::zero());
                j = j + 1;
            }
            b.push(row);
            i = i + 1;
        }
        BivariatePolynomial { deg_x, deg_y, b }
    }

    /// Wraps a rectangular, non-empty coefficient grid as a bivariate
    /// polynomial whose degrees are read off the grid's extent.
    pub fn with_coefficients(b: Vec<Vec<S>>) -> (r: Self)
        requires
            1 <= b@.len() <= 256,
            1 <= b@[0]@.len() <= 256,
            forall|i: int| 0 <= i < b@.len() ==> (#[trigger] b@[i])@.len() == b@[0]@.len(),
        ensures
            r.wf(),
            r.deg_x + 1 == b@.len(),
            r.deg_y + 1 == b@[0]@.len(),
            r.b@ == b@,
    {
        let deg_x: usize = b.len() - 1;
        let deg_y: usize = b[0].len() - 1;
        BivariatePolynomial { deg_x, deg_y, b }
    }

    /// Replaces the coefficient of `x^i y^j` when `(i, j)` lies within the
    /// declared degrees, reporting whether it did.
    pub fn set_coefficient(&mut self, i: usize, j: usize, s: S) -> (r: bool)
        requires
            old(self).wf(),
        ensures
            final(self).wf(),
            final(self).deg_x == old(self).deg_x,
            final(self).deg_y == old(self).deg_y,
            r == (i <= old(self).deg_x && j <= old(self).deg_y),
            r ==> final(self)@ == old(self)@.update(
                i as int,
                old(self)@[i as int].update(j as int, s.rep()),
            ),
            !r ==> final(self)@ == old(self)@,
    {
        if i < self.b.len() {
            let row_len: usize = self.b[i].len();
            if j < row_len {
                self.b[i][j] = s;
                proof {
                    assert(final(self)@ =~~= old(self)@.update(
                        i as int,
                        old(self)@[i as int].update(j as int, s.rep()),
                    ));
                }
                return true;
            }
        }
        false
    }

    /// Evaluates `B(x, y)` in the first variable, returning the univariate
    /// polynomial `A(y) = sum_j (sum_i b[i][j] x^i) y^j`.
    pub fn eval_x(&self, x: &S) -> (r: Polynomial<S>)
        requires
            self.wf(),
        ensures
            r@ == proj_x(
                self@,
                x.rep(),
                self.deg_x + 1,
                self.deg_y + 1,
                S::order(),
            ),
    {
        proof {
            S::order_nontrivial();
        }
        let ghost q = S::order();
        let rows: usize = self.deg_x + 1;
        let cols: usize = self.deg_y + 1;
        let xpows = powers(x, self.deg_x);
        let mut out: Vec<S> = Vec::new();
        let mut j: usize = 0;
        while j < cols
            invariant
                j <= cols,
                q == S::order(),
                q > 1,
                rows == self.deg_x + 1,
                cols == self.deg_y + 1,
                self.wf(),
                xpows@.len() == rows,
                forall|n: int| 0 <= n < rows ==> (#[trigger] xpows@[n]).rep()
                    == npow(x.rep(), n as nat) % q,
                out@.len() == j,
                forall|n: int| 0 <= n < j ==> (#[trigger] out@[n]).rep()
                    == cpsum(self@, n, x.rep(), rows as int) % q,
            decreases cols - j,
        {
            let mut acc = S::zero();
            proof {
                lemma_small_mod(0, q);
            }
            let mut i: usize = 0;
            while i < rows
                invariant
                    i <= rows,
                    j < cols,
                    q == S::order(),
                    q > 1,
                    rows == self.deg_x + 1,
                    cols == self.deg_y + 1,
                    self.wf(),
                    xpows@.len() == rows,
                    forall|n: int| 0 <= n < rows ==> (#[trigger] xpows@[n]).rep()
                        == npow(x.rep(), n as nat) % q,
                    acc.rep() == cpsum(self@, j as int, x.rep(), i as int) % q,
                decreases rows - i,
            {
                let term = self.b[i][j].mul(xpows[i]);
                proof {
                    assert(self@[i as int][j as int] == self.b@[i as int]@[j as int].rep());
                    lemma_accum_step(
                        cpsum(self@, j as int, x.rep(), i as int),
                        self@[i as int][j as int],
                        npow(x.rep(), i as nat),
                        xpows@[i as int].rep(),
                        acc.rep(),
                        q,
                    );
                }
                acc = acc.add(term);
                i = i + 1;
            }
            out.push(acc);
            j = j + 1;
        }
        let r = Polynomial::with_coefficients(out);
        proof {
            assert(r@ =~= proj_x(self@, x.rep(), rows as int, cols as int, q));
        }
        r
    }

    /// Evaluates `B(x, y)` in the second variable, returning the univariate
    /// polynomial `A(x) = sum_i (sum_j b[i][j] y^j) x^i`.
    pub fn eval_y(&self, y: &S) -> (r: Polynomial<S>)
        requires
            self.wf(),
        ensures
            r@ == proj_y(
                self@,
                y.rep(),
                self.deg_x + 1,
                self.deg_y + 1,
                S::order(),
            ),
    {
        proof {
            S::order_nontrivial();
        }
        let ghost q = S::order();
        let rows: usize = self.deg_x + 1;
        let cols: usize = self.deg_y + 1;
        let ypows = powers(y, self.deg_y);
        let mut out: Vec<S> = Vec::new();
        let mut i: usize = 0;
        while i < rows
            invariant
                i <= rows,
                q == S::order(),
                q > 1,
                rows == self.deg_x + 1,
                cols == self.deg_y + 1,
                self.wf(),
                ypows@.len() == cols,
                forall|n: int| 0 <= n < cols ==> (#[trigger] ypows@[n]).rep()
                    == npow(y.rep(), n as nat) % q,
                out@.len() == i,
                forall|n: int| 0 <= n < i ==> (#[trigger] out@[n]).rep()
                    == psum(self@[n], y.rep(), cols as int) % q,
            decreases rows - i,
        {
            let mut acc = S::zero();
            proof {
                lemma_small_mod(0, q);
            }
            let mut j: usize = 0;
            while j < cols
                invariant
                    j <= cols,
                    i < rows,
                    q == S::order(),
                    q > 1,
                    rows == self.deg_x + 1,
                    cols == self.deg_y + 1,
                    self.wf(),
                    ypows@.len() == cols,
                    forall|n: int| 0 <= n < cols ==> (#[trigger] ypows@[n]).rep()
                        == npow(y.rep(), n as nat) % q,
                    acc.rep() == psum(self@[i as int], y.rep(), j as int) % q,
                decreases cols - j,
            {
                let term = self.b[i][j].mul(ypows[j]);
                proof {
                    assert(self@[i as int][j as int] == self.b@[i as int]@[j as int].rep());
                    lemma_accum_step(
                        psum(self@[i as int], y.rep(), j as int),
                        self@[i as int][j as int],
                        npow(y.rep(), j as nat),
                        ypows@[j as int].rep(),
                        acc.rep(),
                        q,
                    );
                }
                acc = acc.add(term);
                j = j + 1;
            }
            out.push(acc);
            i = i + 1;
        }
        let r = Polynomial::with_coefficients(out);
        proof {
            assert(r@ =~= proj_y(self@, y.rep(), rows as int, cols as int, q));
        }
        r
    }

    /// Adds two bivariate polynomials coefficient-wise, padding the smaller
    /// grid with zero up to the larger one's degrees in each variable.
    pub fn add(&self, other: &Self) -> (r: Self)
        requires
            self.wf(),
            other.wf(),
        ensures
            r.wf(),
            r.deg_x == if self.deg_x >= other.deg_x { self.deg_x } else { other.deg_x },
            r.deg_y == if self.deg_y >= other.deg_y { self.deg_y } else { other.deg_y },
            r@ == grid_add(
                self@,
                other@,
                r.deg_x + 1,
                r.deg_y + 1,
                S::order(),
            ),
    {
        proof {
            S::order_nontrivial();
        }
        let ghost q = S::order();
        let deg_x: usize = if self.deg_x >= other.deg_x { self.deg_x } else { other.deg_x };
        let deg_y: usize = if self.deg_y >= other.deg_y { self.deg_y } else { other.deg_y };
        let rows: usize = deg_x + 1;
        let cols: usize = deg_y + 1;
        let mut b: Vec<Vec<S>> = Vec::new();
        let mut i: usize = 0;
        while i < rows
            invariant
                i <= rows,
                q == S::order(),
                q > 1,
                rows == deg_x + 1,
                cols == deg_y + 1,
                deg_x <= 255,
                deg_y <= 255,
                self.wf(),
                other.wf(),
                rows >= self.deg_x + 1,
                rows >= other.deg_x + 1,
                cols >= self.deg_y + 1,
                cols >= other.deg_y + 1,
                b@.len() == i,
                forall|n: int| 0 <= n < i ==> (#[trigger] b@[n])@.len() == cols,
                forall|n: int, m: int|
                    0 <= n < i && 0 <= m < cols ==> (#[trigger] b@[n]@[m]).rep() == (
                    crate::sums::cell(self@, n, m) + crate::sums::cell(other@, n, m)) % q,
            decreases rows - i,
        {
            let mut row: Vec<S> = Vec::new();
            let mut j: usize = 0;
            while j < cols
                invariant
                    j <= cols,
                    i < rows,
                    q == S::order(),
                    q > 1,
                    rows == deg_x + 1,
                    cols == deg_y + 1,
                    self.wf(),
                    other.wf(),
                    rows >= self.deg_x + 1,
                    rows >= other.deg_x + 1,
                    cols >= self.deg_y + 1,
                    cols >= other.deg_y + 1,
                    row@.len() == j,
                    forall|m: int|
                        0 <= m < j ==> (#[trigger] row@[m]).rep() == (crate::sums::cell(
                            self@,
                            i as int,
                            m,
                        ) + crate::sums::cell(other@, i as int, m)) % q,
                decreases cols - j,
            {
                let in_a = i < self.b.len() && j < self.deg_y + 1;
                let in_b = i < other.b.len() && j < other.deg_y + 1;
                let s = if in_a && in_b {
                    self.b[i][j].add(other.b[i][j])
                } else if in_a {
                    let c = self.b[i][j];
                    proof {
                        c.rep_reduced();
                        lemma_small_mod(c.rep(), q);
                    }
                    c
                } else if in_b {
                    let c = other.b[i][j];
                    proof {
                        c.rep_reduced();
                        lemma_small_mod(c.rep(), q);
                    }
                    c
                } else {
                    let c = S::zero();
                    proof {
                        lemma_small_mod(0, q);
                    }
                    c
                };
                row.push(s);
                j = j + 1;
            }
            b.push(row);
            i = i + 1;
        }
        let r = BivariatePolynomial { deg_x, deg_y, b };
        proof {
            assert(r@ =~~= grid_add(self@, other@, rows as int, cols as int, q));
        }
        r
    }
}

} // verus!
