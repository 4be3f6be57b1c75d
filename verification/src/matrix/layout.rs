//! Facts about column-major indexing: entry `(r, c)` of a matrix with `rows`
//! rows lives at offset `r + c * rows`.

use vstd::prelude::*;

verus! {

/// An in-range entry has an in-range offset.
pub proof fn lemma_offset_in_range(rows: int, cols: int, r: int, c: int)
    requires
        0 <= r < rows,
        0 <= c < cols,
    ensures
        0 <= c * rows,
        c * rows + rows <= rows * cols,
        0 <= r + c * rows < rows * cols,
        (c + 1) * rows == c * rows + rows,
{
    assert(0 <= c * rows) by (nonlinear_arith)
        requires
            0 <= c,
            0 <= rows,
    ;
    assert((c + 1) * rows == c * rows + rows) by (nonlinear_arith);
    assert((c + 1) * rows <= cols * rows) by (nonlinear_arith)
        requires
            c + 1 <= cols,
            0 <= rows,
    ;
    assert(cols * rows == rows * cols) by (nonlinear_arith);
}

/// Columns follow each other at a distance of `rows`.
pub proof fn lemma_next_column(rows: int, c: int)
    ensures
        (c + 1) * rows == c * rows + rows,
{
    assert((c + 1) * rows == c * rows + rows) by (nonlinear_arith);
}

/// The offset of an entry determines its row and its column.
pub proof fn lemma_offset_split(rows: int, r: int, c: int)
    requires
        0 <= r < rows,
        0 <= c,
    ensures
        (r + c * rows) % rows == r,
        (r + c * rows) / rows == c,
{
    vstd::arithmetic::div_mod::lemma_fundamental_div_mod_converse(r + c * rows, rows, c, r);
}

/// Every offset below `rows * cols` is the offset of exactly one entry.
pub proof fn lemma_offset_join(rows: int, cols: int, k: int)
    requires
        0 <= k < rows * cols,
        0 <= rows,
        0 <= cols,
    ensures
        0 <= k % rows < rows,
        0 <= k / rows < cols,
        k == k % rows + (k / rows) * rows,
{
    assert(rows > 0) by (nonlinear_arith)
        requires
            0 <= k < rows * cols,
            0 <= rows,
    ;
    vstd::arithmetic::div_mod::lemma_fundamental_div_mod(k, rows);
    vstd::arithmetic::div_mod::lemma_mod_bound(k, rows);
    let q = k / rows;
    assert(k == rows * q + k % rows);
    assert(q >= 0) by (nonlinear_arith)
        requires
            k == rows * q + k % rows,
            0 <= k,
            0 <= k % rows < rows,
    ;
    assert(q < cols) by (nonlinear_arith)
        requires
            k == rows * q + k % rows,
            k < rows * cols,
            0 <= k % rows,
            rows > 0,
    ;
    assert(rows * q == q * rows) by (nonlinear_arith);
}

} // verus!
