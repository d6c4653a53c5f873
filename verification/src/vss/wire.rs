//! The wire form of a commitment grid: the concatenation, row-major, of the
//! canonical encodings of its cells, after a two-byte degree header.

use crate::algebra::{FieldElement, GroupElement};
use crate::sums::{grid_reduced, rectangular};
use vstd::prelude::*;

verus! {

/// The concatenated canonical encodings of the first `k` cells of a row.
pub open spec fn ser_row<G: GroupElement>(row: Seq<nat>, k: int) -> Seq<u8>
    decreases k,
{
    if k <= 0 {
        Seq::empty()
    } else {
        ser_row::<G>(row, k - 1) + G::enc(row[k - 1])
    }
}

/// The concatenated encodings of the first `k` rows of a grid, row-major.
pub open spec fn ser_grid<G: GroupElement>(m: Seq<Seq<nat>>, k: int) -> Seq<u8>
    decreases k,
{
    if k <= 0 {
        Seq::empty()
    } else {
        ser_grid::<G>(m, k - 1) + ser_row::<G>(m[k - 1], m[k - 1].len() as int)
    }
}

/// A serialized row prefix is as long as the cells it encodes.
pub proof fn lemma_ser_row_len<G: GroupElement>(row: Seq<nat>, k: int)
    requires
        0 <= k <= row.len(),
        forall|t: int| 0 <= t < row.len() ==> #[trigger] row[t] < <G::Scalar as FieldElement>::order(),
    ensures
        ser_row::<G>(row, k).len() == k * G::enc_len(),
    decreases k,
{
    let l = G::enc_len();
    if k <= 0 {
        assert(0 * l == 0) by (nonlinear_arith);
    } else {
        lemma_ser_row_len::<G>(row, k - 1);
        G::enc_len_bounds(row[k - 1]);
        assert((k - 1) * l + l == k * l) by (nonlinear_arith);
    }
}

/// A serialized grid prefix is as long as the cells it encodes.
pub proof fn lemma_ser_grid_len<G: GroupElement>(m: Seq<Seq<nat>>, k: int, cols: int)
    requires
        0 <= k <= m.len(),
        0 <= cols,
        rectangular(m, k, cols),
        grid_reduced(m, <G::Scalar as FieldElement>::order()),
    ensures
        ser_grid::<G>(m, k).len() == k * cols * G::enc_len(),
    decreases k,
{
    let l = G::enc_len();
    if k <= 0 {
        assert(0 * cols * l == 0) by (nonlinear_arith);
    } else {
        lemma_ser_grid_len::<G>(m, k - 1, cols);
        lemma_ser_row_len::<G>(m[k - 1], cols);
        assert((k - 1) * cols * l + cols * l == k * cols * l) by (nonlinear_arith);
    }
}

/// A row whose cells encode to consecutive slices of a byte string
/// serializes to exactly that span of the byte string.
pub proof fn lemma_ser_row_from_chunks<G: GroupElement>(
    row: Seq<nat>,
    cols: int,
    base: int,
    bytes: Seq<u8>,
)
    requires
        0 <= cols <= row.len(),
        forall|t: int| 0 <= t < row.len() ==> #[trigger] row[t] < <G::Scalar as FieldElement>::order(),
        0 <= base,
        base + cols * G::enc_len() <= bytes.len(),
        forall|t: int|
            0 <= t < cols ==> G::enc(#[trigger] row[t]) == bytes.subrange(
                base + t * G::enc_len(),
                base + (t + 1) * G::enc_len(),
            ),
    ensures
        ser_row::<G>(row, cols) == bytes.subrange(base, base + cols * G::enc_len()),
    decreases cols,
{
    let l = G::enc_len() as int;
    if cols <= 0 {
        assert(cols * l == 0) by (nonlinear_arith)
            requires
                cols <= 0,
                0 <= cols,
        ;
        assert(ser_row::<G>(row, cols) =~= bytes.subrange(base, base + cols * l));
    } else {
        assert((cols - 1) * l + l == cols * l) by (nonlinear_arith);
        assert(0 <= (cols - 1) * l) by (nonlinear_arith)
            requires
                cols >= 1,
                l >= 0,
        ;
        lemma_ser_row_from_chunks::<G>(row, cols - 1, base, bytes);
        assert(ser_row::<G>(row, cols) =~= bytes.subrange(base, base + cols * l));
    }
}

/// A grid whose cells encode to consecutive slices of a byte string, laid
/// out row-major after a two-byte header, serializes to the byte string's
/// whole body.
pub proof fn lemma_ser_grid_from_chunks<G: GroupElement>(
    m: Seq<Seq<nat>>,
    rows: int,
    cols: int,
    bytes: Seq<u8>,
)
    requires
        0 <= rows <= m.len(),
        0 <= cols,
        rectangular(m, rows, cols),
        grid_reduced(m, <G::Scalar as FieldElement>::order()),
        2 + rows * cols * G::enc_len() <= bytes.len(),
        forall|i: int, j: int|
            0 <= i < rows && 0 <= j < cols ==> G::enc(#[trigger] m[i][j]) == bytes.subrange(
                2 + (i * cols + j) * G::enc_len(),
                2 + (i * cols + j + 1) * G::enc_len(),
            ),
    ensures
        ser_grid::<G>(m, rows) == bytes.subrange(2, 2 + rows * cols * G::enc_len()),
    decreases rows,
{
    let l = G::enc_len() as int;
    if rows <= 0 {
        assert(rows * cols * l == 0) by (nonlinear_arith)
            requires
                rows <= 0,
                0 <= rows,
        ;
        assert(ser_grid::<G>(m, rows) =~= bytes.subrange(2, 2 + rows * cols * l));
    } else {
        assert((rows - 1) * cols * l + cols * l == rows * cols * l) by (nonlinear_arith);
        assert(0 <= (rows - 1) * cols * l) by (nonlinear_arith)
            requires
                rows >= 1,
                cols >= 0,
                l >= 0,
        ;
        lemma_ser_grid_from_chunks::<G>(m, rows - 1, cols, bytes);
        let base = 2 + (rows - 1) * cols * l;
        assert forall|t: int| 0 <= t < cols implies G::enc(#[trigger] m[rows - 1][t])
            == bytes.subrange(base + t * l, base + (t + 1) * l) by {
            assert((rows - 1) * cols * l + t * l == ((rows - 1) * cols + t) * l
                && (rows - 1) * cols * l + (t + 1) * l == ((rows - 1) * cols + t + 1) * l)
                by (nonlinear_arith);
        }
        lemma_ser_row_from_chunks::<G>(m[rows - 1], cols, base, bytes);
        assert(ser_grid::<G>(m, rows) =~= bytes.subrange(2, 2 + rows * cols * l));
    }
}

/// The slice of a serialized row that covers cell `j` is that cell's
/// canonical encoding.
pub proof fn lemma_ser_row_index<G: GroupElement>(row: Seq<nat>, cols: int, j: int)
    requires
        0 <= j < cols <= row.len(),
        forall|t: int| 0 <= t < row.len() ==> #[trigger] row[t] < <G::Scalar as FieldElement>::order(),
    ensures
        ser_row::<G>(row, cols).subrange(j * G::enc_len(), (j + 1) * G::enc_len()) == G::enc(
            row[j],
        ),
    decreases cols,
{
    let l = G::enc_len() as int;
    lemma_ser_row_len::<G>(row, cols);
    lemma_ser_row_len::<G>(row, cols - 1);
    G::enc_len_bounds(row[cols - 1]);
    let a = ser_row::<G>(row, cols - 1);
    let e = G::enc(row[cols - 1]);
    assert(j * l + l == (j + 1) * l) by (nonlinear_arith);
    assert(0 <= j * l) by (nonlinear_arith)
        requires
            j >= 0,
            l >= 0,
    ;
    if j == cols - 1 {
        assert(a.len() == (cols - 1) * l);
        assert(j * l == a.len());
        assert((j + 1) * l == cols * l);
        assert(ser_row::<G>(row, cols).subrange(j * l, (j + 1) * l) =~= e);
    } else {
        lemma_ser_row_index::<G>(row, cols - 1, j);
        assert((j + 1) * l <= (cols - 1) * l) by (nonlinear_arith)
            requires
                j + 1 <= cols - 1,
                l >= 0,
        ;
        assert(ser_row::<G>(row, cols).subrange(j * l, (j + 1) * l) =~= a.subrange(
            j * l,
            (j + 1) * l,
        ));
    }
}

/// The slice of a serialized grid that covers cell `(i, j)` is that cell's
/// canonical encoding.
pub proof fn lemma_ser_grid_index<G: GroupElement>(
    m: Seq<Seq<nat>>,
    rows: int,
    cols: int,
    i: int,
    j: int,
)
    requires
        0 <= i < rows <= m.len(),
        0 <= j < cols,
        rectangular(m, rows, cols),
        grid_reduced(m, <G::Scalar as FieldElement>::order()),
    ensures
        ser_grid::<G>(m, rows).subrange(
            (i * cols + j) * G::enc_len(),
            (i * cols + j + 1) * G::enc_len(),
        ) == G::enc(m[i][j]),
    decreases rows,
{
    let l = G::enc_len() as int;
    lemma_ser_grid_len::<G>(m, rows, cols);
    lemma_ser_grid_len::<G>(m, rows - 1, cols);
    let a = ser_grid::<G>(m, rows - 1);
    let lo = (i * cols + j) * l;
    let hi = (i * cols + j + 1) * l;
    assert(lo + l == hi) by (nonlinear_arith)
        requires
            lo == (i * cols + j) * l,
            hi == (i * cols + j + 1) * l,
    ;
    assert(0 <= lo) by (nonlinear_arith)
        requires
            lo == (i * cols + j) * l,
            0 <= i,
            0 <= j,
            0 <= l,
            0 <= cols,
    ;
    if i == rows - 1 {
        lemma_ser_row_index::<G>(m[i], cols, j);
        lemma_ser_row_len::<G>(m[i], cols);
        assert(a.len() == (rows - 1) * cols * l);
        assert(lo == (rows - 1) * cols * l + j * l && hi == (rows - 1) * cols * l + (j + 1) * l)
            by (nonlinear_arith)
            requires
                i == rows - 1,
                lo == (i * cols + j) * l,
                hi == (i * cols + j + 1) * l,
        ;
        assert(0 <= j * l && j * l + l == (j + 1) * l && (j + 1) * l <= cols * l)
            by (nonlinear_arith)
            requires
                0 <= j,
                j + 1 <= cols,
                l >= 0,
        ;
        assert(ser_grid::<G>(m, rows).subrange(lo, hi) =~= ser_row::<G>(m[i], cols).subrange(
            j * l,
            (j + 1) * l,
        ));
    } else {
        lemma_ser_grid_index::<G>(m, rows - 1, cols, i, j);
        assert(hi <= (rows - 1) * cols * l) by (nonlinear_arith)
            requires
                0 <= i,
                0 <= j,
                0 <= l,
                0 <= cols,
                j < cols,
                i < rows - 1,
                hi == (i * cols + j + 1) * l,
        ;
        assert(ser_grid::<G>(m, rows).subrange(lo, hi) =~= a.subrange(lo, hi));
    }
}

} // verus!
