//! Small facts of integer arithmetic on grid indices.

use vstd::prelude::*;

verus! {

/// Row-major indices decompose uniquely: `q * d + r` with `r < d` divides
/// back into `q` and leaves `r`.
pub proof fn lemma_div_mod_of(q: int, d: int, r: int)
    requires
        0 < d,
        0 <= r < d,
    ensures
        (q * d + r) / d == q,
        (q * d + r) % d == r,
{
    vstd::arithmetic::div_mod::lemma_fundamental_div_mod_converse(q * d + r, d, q, r);
}

/// A row-major index inside a `cols` by `rows` grid lies below `rows * cols`.
pub proof fn lemma_index_bound(row: int, col: int, rows: int, cols: int)
    requires
        0 <= row < rows,
        0 <= col < cols,
    ensures
        0 <= row * cols + col < rows * cols,
        row * cols + col <= rows * cols - 1,
        rows * cols == cols * rows,
{
    assert(rows * cols == cols * rows) by (nonlinear_arith);
    assert(row * cols + col < rows * cols) by (nonlinear_arith)
        requires 0 <= row < rows, 0 <= col < cols;
    assert(0 <= row * cols) by (nonlinear_arith)
        requires 0 <= row, 0 <= cols;
}

/// Row-major indices of distinct cells differ.
pub proof fn lemma_index_unique(r1: int, c1: int, r2: int, c2: int, cols: int)
    requires
        0 <= c1 < cols,
        0 <= c2 < cols,
        r1 * cols + c1 == r2 * cols + c2,
    ensures
        r1 == r2,
        c1 == c2,
{
    lemma_div_mod_of(r1, cols, c1);
    lemma_div_mod_of(r2, cols, c2);
}

/// Every index below `rows * cols` is the row-major index of a cell.
pub proof fn lemma_index_split(i: int, rows: int, cols: int)
    requires
        0 <= rows,
        0 <= cols,
        0 <= i < rows * cols,
    ensures
        0 <= i / cols < rows,
        0 <= i % cols < cols,
        i == (i / cols) * cols + i % cols,
{
    assert(cols > 0) by (nonlinear_arith)
        requires 0 <= i < rows * cols, 0 <= rows, 0 <= cols;
    vstd::arithmetic::div_mod::lemma_fundamental_div_mod(i, cols);
    vstd::arithmetic::mul::lemma_mul_is_commutative(cols, i / cols);
    vstd::arithmetic::div_mod::lemma_div_pos_is_pos(i, cols);
    vstd::arithmetic::div_mod::lemma_mod_bound(i, cols);
    if i / cols >= rows {
        assert((i / cols) * cols >= rows * cols) by (nonlinear_arith)
            requires i / cols >= rows, cols > 0;
    }
}

} // verus!
