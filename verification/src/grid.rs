//! Arithmetic of row-major cell indices on a square grid.

use vstd::prelude::*;

verus! {

/// Index of the cell in column `col` of row `row` on a grid of side `n`.
pub open spec fn cell_index(n: int, col: int, row: int) -> int {
    col + row * n
}

/// A column and a row inside the grid give an index inside the grid.
pub proof fn lemma_cell_index_bounds(n: int, col: int, row: int)
    requires
        0 <= col < n,
        0 <= row < n,
    ensures
        0 <= cell_index(n, col, row) < n * n,
        row * n + n <= n * n,
        0 <= row * n,
{
    assert(0 <= row * n && row * n + n <= n * n) by (nonlinear_arith)
        requires
            0 <= row < n,
    ;
}

/// Column and row are recovered from an index by remainder and quotient.
pub proof fn lemma_cell_index_unique(n: int, col: int, row: int)
    requires
        0 <= col < n,
        0 <= row < n,
    ensures
        cell_index(n, col, row) % n == col,
        cell_index(n, col, row) / n == row,
{
    vstd::arithmetic::div_mod::lemma_fundamental_div_mod_converse(
        cell_index(n, col, row),
        n,
        row,
        col,
    );
}

/// Every index inside the grid is the index of exactly its remainder and
/// quotient.
pub proof fn lemma_cell_index_split(n: int, k: int)
    requires
        0 < n,
        0 <= k < n * n,
    ensures
        0 <= k % n < n,
        0 <= k / n < n,
        cell_index(n, k % n, k / n) == k,
{
    vstd::arithmetic::div_mod::lemma_fundamental_div_mod(k, n);
    vstd::arithmetic::div_mod::lemma_mod_bound(k, n);
    let q = k / n;
    assert(n * q == q * n) by (nonlinear_arith);
    assert(0 <= q < n) by (nonlinear_arith)
        requires
            0 < n,
            0 <= k < n * n,
            k == q * n + k % n,
            0 <= k % n < n,
    ;
}

} // verus!
