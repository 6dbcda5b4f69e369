//! Tables laid out row after row.

use vstd::prelude::*;

verus! {

/// Where the entry of row `r` and column `c` stands in a table of `n` rows and
/// `k` columns.
pub proof fn entry_place(n: int, k: int, r: int, c: int)
    requires
        0 <= r < n,
        0 <= c < k,
    ensures
        0 <= r * k,
        0 <= r * k + c < n * k,
        (r * k + c) / k == r,
        (r * k + c) % k == c,
{
    assert(0 <= r * k && r * k + k <= n * k) by (nonlinear_arith)
        requires
            0 <= r < n,
            0 < k,
    ;
    vstd::arithmetic::div_mod::lemma_fundamental_div_mod_converse(r * k + c, k, r, c);
}

/// Which row and column a place of a table of `n` rows and `k` columns stands
/// for.
pub proof fn place_entry(n: int, k: int, j: int)
    requires
        0 <= j < n * k,
        0 < k,
    ensures
        0 <= j / k < n,
        0 <= j % k < k,
        j == (j / k) * k + j % k,
{
    vstd::arithmetic::div_mod::lemma_fundamental_div_mod(j, k);
    assert(0 <= j / k && j / k < n) by (nonlinear_arith)
        requires
            0 < k,
            0 <= j < n * k,
    ;
    assert(k * (j / k) == (j / k) * k) by (nonlinear_arith);
}

/// Fewer rows take no more room.
pub proof fn rows_fit_within(a: int, b: int, k: int)
    requires
        0 <= a <= b,
        0 <= k,
    ensures
        0 <= a * k <= b * k,
{
    assert(0 <= a * k && a * k <= b * k) by (nonlinear_arith)
        requires
            0 <= a <= b,
            0 <= k,
    ;
}

} // verus!
