//! Mathematical model of the commitment algebra.
//!
//! Everything the contracts say is phrased over these spec functions: plain
//! natural-number power sums over the grid of residues, with reduction modulo
//! the group order applied only where an executable value is formed.

use vstd::arithmetic::div_mod::{
    lemma_add_mod_noop, lemma_mod_add_multiples_vanish, lemma_mod_bound, lemma_mod_twice,
    lemma_mul_mod_noop_left, lemma_mul_mod_noop_right, lemma_small_mod, lemma_sub_mod_noop,
};
use vstd::prelude::*;

verus! {

/// `x^e` over the naturals.
pub open spec fn npow(x: nat, e: nat) -> nat
    decreases e,
{
    if e == 0 {
        1
    } else {
        x * npow(x, (e - 1) as nat)
    }
}

/// The power sum of the first `k` coefficients: `sum_{j < k} c[j] * y^j`.
pub open spec fn psum(c: Seq<nat>, y: nat, k: int) -> nat
    decreases k,
{
    if k <= 0 {
        0
    } else {
        psum(c, y, k - 1) + c[k - 1] * npow(y, (k - 1) as nat)
    }
}

/// The power sum down column `j`: `sum_{i < k} m[i][j] * x^i`.
pub open spec fn cpsum(m: Seq<Seq<nat>>, j: int, x: nat, k: int) -> nat
    decreases k,
{
    if k <= 0 {
        0
    } else {
        cpsum(m, j, x, k - 1) + m[k - 1][j] * npow(x, (k - 1) as nat)
    }
}

/// The full bivariate power sum over the first `k` rows:
/// `sum_{i < k} sum_{j} m[i][j] * x^i * y^j`, grouped by row.
pub open spec fn mat_sum(m: Seq<Seq<nat>>, x: nat, y: nat, k: int) -> nat
    decreases k,
{
    if k <= 0 {
        0
    } else {
        mat_sum(m, x, y, k - 1) + npow(x, (k - 1) as nat) * psum(
            m[k - 1],
            y,
            m[k - 1].len() as int,
        )
    }
}

/// The same bivariate power sum grouped by column instead:
/// `sum_{j < k} y^j * (sum_{i < rows} m[i][j] * x^i)`.
pub open spec fn ysum(m: Seq<Seq<nat>>, x: nat, y: nat, rows: int, k: int) -> nat
    decreases k,
{
    if k <= 0 {
        0
    } else {
        ysum(m, x, y, rows, k - 1) + npow(y, (k - 1) as nat) * cpsum(m, k - 1, x, rows)
    }
}

/// The coefficients, already reduced, of the projection of grid `b` obtained
/// by fixing the first variable to `x`: one coefficient per column.
pub open spec fn proj_x(b: Seq<Seq<nat>>, x: nat, rows: int, cols: int, q: nat) -> Seq<nat> {
    Seq::new(cols as nat, |j: int| cpsum(b, j, x, rows) % q)
}

/// The coefficients, already reduced, of the projection of grid `b` obtained
/// by fixing the second variable to `y`: one coefficient per row.
pub open spec fn proj_y(b: Seq<Seq<nat>>, y: nat, rows: int, cols: int, q: nat) -> Seq<nat> {
    Seq::new(rows as nat, |i: int| psum(b[i], y, cols) % q)
}

/// A cell of a grid, with zero outside the grid's extent.
pub open spec fn cell(m: Seq<Seq<nat>>, i: int, j: int) -> nat {
    if 0 <= i < m.len() && 0 <= j < m[i].len() {
        m[i][j]
    } else {
        0
    }
}

/// The cell-wise modular sum of two grids, padded with zero to `rows x cols`.
pub open spec fn grid_add(
    a: Seq<Seq<nat>>,
    b: Seq<Seq<nat>>,
    rows: int,
    cols: int,
    q: nat,
) -> Seq<Seq<nat>> {
    Seq::new(rows as nat, |i: int| Seq::new(cols as nat, |j: int| (cell(a, i, j) + cell(b, i, j)) % q))
}

/// The grid of residues of the commitments to the cells of `b`: committing a
/// coefficient multiplies the generator, of discrete logarithm one, by it.
pub open spec fn commit_grid(b: Seq<Seq<nat>>, q: nat) -> Seq<Seq<nat>> {
    Seq::new(b.len(), |i: int| Seq::new(b[i].len(), |j: int| b[i][j] % q))
}

/// Every cell of the grid is a reduced residue.
pub open spec fn grid_reduced(m: Seq<Seq<nat>>, q: nat) -> bool {
    forall|i: int, j: int|
        0 <= i < m.len() && 0 <= j < m[i].len() ==> #[trigger] m[i][j] < q
}

/// The first `rows` rows all have exactly `cols` cells.
pub open spec fn rectangular(m: Seq<Seq<nat>>, rows: int, cols: int) -> bool {
    forall|i: int| 0 <= i < rows ==> (#[trigger] m[i]).len() == cols
}

/// One accumulation step: adding the reduced product `c * pw % q` to a
/// reduced accumulator tracks the unreduced sum.
pub proof fn lemma_accum_step(t: nat, c: nat, pw: nat, pwm: nat, acc: nat, q: nat)
    requires
        q > 0,
        acc == t % q,
        pwm == pw % q,
    ensures
        (acc + (c * pwm) % q) % q == (t + c * pw) % q,
{
    lemma_mul_mod_noop_right(c as int, pw as int, q as int);
    assert((c * pwm) % q == (c * pw) % q);
    lemma_add_mod_noop(t as int, (c * pw) as int, q as int);
    lemma_mod_twice(t as int, q as int);
    lemma_mod_twice((c * pw) as int, q as int);
    assert((t % q + (c * pw) % q) % q == (t + c * pw) % q);
}

/// Adding the inverse of a residue subtracts the residue, modulo `q`.
pub proof fn lemma_add_inverse_mod(d: int, t: nat, n: nat, q: nat)
    requires
        q > 0,
        t < q,
        n < q,
        (t + n) % q == 0,
    ensures
        ((d % (q as int)) + n) % (q as int) == (d - t) % (q as int),
{
    if t + n < q {
        lemma_small_mod((t + n) as nat, q);
        assert(t == 0 && n == 0);
        lemma_mod_twice(d, q as int);
    } else {
        lemma_mod_add_multiples_vanish((t + n - q) as int, q as int);
        lemma_small_mod((t + n - q) as nat, q);
        assert(t + n == q);
        // d % q + n == d % q + q - t
        lemma_mod_add_multiples_vanish(d % (q as int) - t, q as int);
        assert((d % (q as int) + n) % (q as int) == (d % (q as int) - t) % (q as int));
        lemma_sub_mod_noop(d, t as int, q as int);
        lemma_mod_twice(d, q as int);
        lemma_small_mod(t, q);
        assert((d % (q as int) - (t as int) % (q as int)) % (q as int) == (d - t) % (q as int));
    }
}

/// A number and its negation are divisible by `q` together.
pub proof fn lemma_neg_zero(x: int, q: nat)
    requires
        q > 0,
    ensures
        (x % (q as int) == 0) <==> ((-x) % (q as int) == 0),
{
    lemma_add_mod_noop(x, -x, q as int);
    lemma_mod_twice(x, q as int);
    lemma_mod_twice(-x, q as int);
    lemma_small_mod(0, q);
}

/// A residue difference `(s - v) % q` is zero exactly when `s % q == v`.
pub proof fn lemma_diff_zero(s: int, v: nat, q: nat)
    requires
        q > 0,
        v < q,
    ensures
        ((s - v) % (q as int) == 0) <==> (s % (q as int) == v),
{
    lemma_sub_mod_noop(s, v as int, q as int);
    lemma_small_mod(v, q);
    lemma_mod_bound(s, q as int);
    let d = s % (q as int);
    assert((s - v) % (q as int) == (d - v) % (q as int));
    if d >= v {
        lemma_small_mod((d - v) as nat, q);
    } else {
        lemma_mod_add_multiples_vanish(d - v, q as int);
        lemma_small_mod((q + d - v) as nat, q);
    }
}

/// The column-grouped sum over zero rows is zero.
proof fn lemma_ysum_empty(m: Seq<Seq<nat>>, x: nat, y: nat, k: int)
    ensures
        ysum(m, x, y, 0, k) == 0,
    decreases k,
{
    if k > 0 {
        lemma_ysum_empty(m, x, y, k - 1);
        assert(cpsum(m, k - 1, x, 0) == 0);
        assert(ysum(m, x, y, 0, k) == ysum(m, x, y, 0, k - 1) + npow(y, (k - 1) as nat) * cpsum(
            m,
            k - 1,
            x,
            0,
        ));
    }
}

/// Splitting the last row out of the column-grouped sum.
proof fn lemma_ysum_extend(m: Seq<Seq<nat>>, x: nat, y: nat, rows: int, k: int)
    requires
        rows >= 1,
    ensures
        ysum(m, x, y, rows, k) == ysum(m, x, y, rows - 1, k) + npow(x, (rows - 1) as nat) * psum(
            m[rows - 1],
            y,
            k,
        ),
    decreases k,
{
    let p = npow(x, (rows - 1) as nat);
    if k <= 0 {
        assert(psum(m[rows - 1], y, k) == 0);
        assert(ysum(m, x, y, rows, k) == 0);
        assert(ysum(m, x, y, rows - 1, k) == 0);
    } else {
        lemma_ysum_extend(m, x, y, rows, k - 1);
        let yk = npow(y, (k - 1) as nat);
        let a = cpsum(m, k - 1, x, rows - 1);
        let c = m[rows - 1][k - 1];
        let ps = psum(m[rows - 1], y, k - 1);
        let s = ysum(m, x, y, rows - 1, k - 1);
        assert(ysum(m, x, y, rows, k) == ysum(m, x, y, rows, k - 1) + yk * cpsum(
            m,
            k - 1,
            x,
            rows,
        ));
        assert(cpsum(m, k - 1, x, rows) == a + c * p);
        assert(ysum(m, x, y, rows - 1, k) == s + yk * a);
        assert(psum(m[rows - 1], y, k) == ps + c * yk);
        assert(ysum(m, x, y, rows, k - 1) == s + p * ps);
        assert((s + p * ps) + yk * (a + c * p) == (s + yk * a) + p * (ps + c * yk))
            by (nonlinear_arith);
        assert(ysum(m, x, y, rows, k) == ysum(m, x, y, rows - 1, k) + p * psum(
            m[rows - 1],
            y,
            k,
        ));
    }
}

/// The row-grouped and the column-grouped bivariate power sums agree.
pub proof fn lemma_sum_exchange(m: Seq<Seq<nat>>, x: nat, y: nat, rows: int, cols: int)
    requires
        0 <= rows <= m.len(),
        rectangular(m, rows, cols),
    ensures
        mat_sum(m, x, y, rows) == ysum(m, x, y, rows, cols),
    decreases rows,
{
    if rows <= 0 {
        lemma_ysum_empty(m, x, y, cols);
    } else {
        lemma_sum_exchange(m, x, y, rows - 1, cols);
        lemma_ysum_extend(m, x, y, rows, cols);
        assert(m[rows - 1].len() == cols);
    }
}

/// The bivariate power sum of a grid equals, modulo `q`, the power sum of the
/// reduced column projections: evaluating the committed polynomial in two
/// steps gives the same residue as the double sum.
pub proof fn lemma_matrix_eval(b: Seq<Seq<nat>>, x: nat, y: nat, rows: int, cols: int, q: nat)
    requires
        q > 0,
        0 <= rows <= b.len(),
        rectangular(b, rows, cols),
        0 <= cols,
    ensures
        mat_sum(b, x, y, rows) % q == psum(proj_x(b, x, rows, cols, q), y, cols) % q,
{
    lemma_sum_exchange(b, x, y, rows, cols);
    lemma_ysum_vs_proj(b, x, y, rows, cols, cols, q);
}

/// The power sum of the reduced column projections tracks the column-grouped
/// sum modulo `q`, prefix by prefix.
proof fn lemma_ysum_vs_proj(
    b: Seq<Seq<nat>>,
    x: nat,
    y: nat,
    rows: int,
    cols: int,
    k: int,
    q: nat,
)
    requires
        q > 0,
        k <= cols,
    ensures
        psum(proj_x(b, x, rows, cols, q), y, k) % q == ysum(b, x, y, rows, k) % q,
    decreases k,
{
    if k > 0 {
        lemma_ysum_vs_proj(b, x, y, rows, cols, k - 1, q);
        let c = cpsum(b, k - 1, x, rows);
        let p = npow(y, (k - 1) as nat);
        assert(proj_x(b, x, rows, cols, q)[k - 1] == c % q);
        lemma_mul_mod_noop_left(c as int, p as int, q as int);
        assert(((c % q) * p) % q == (c * p) % q);
        lemma_add_mod_noop(psum(proj_x(b, x, rows, cols, q), y, k - 1) as int, ((c % q) * p) as int, q as int);
        lemma_add_mod_noop(ysum(b, x, y, rows, k - 1) as int, (c * p) as int, q as int);
        assert(p * c == c * p);
    }
}

} // verus!
