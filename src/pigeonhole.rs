//! Integer facts behind the pigeonhole filters: splitting `x` units into
//! `n` parts of sizes `(b + x) / n` uses every unit exactly once.
use vstd::arithmetic::div_mod::{
    lemma_fundamental_div_mod, lemma_fundamental_div_mod_converse, lemma_mod_pos_bound,
};
use vstd::prelude::*;

verus! {

/// `sum_{b < k} (b + x) / n`.
pub open spec fn spread_sum(k: int, x: int, n: int) -> int
    decreases k,
{
    if k <= 0 || n <= 0 {
        0
    } else {
        spread_sum(k - 1, x, n) + ((k - 1) + x) / n
    }
}

proof fn lemma_part_size(b: int, x: int, n: int)
    requires
        n >= 1,
        0 <= b < n,
        x >= 0,
    ensures
        (b + x) / n == x / n + if b + x % n >= n { 1int } else { 0int },
{
    lemma_fundamental_div_mod(x, n);
    let q = x / n;
    let s = x % n;
    if b + s >= n {
        assert(b + x == (q + 1) * n + (b + s - n)) by (nonlinear_arith)
            requires
                x == n * q + s,
        ;
        lemma_fundamental_div_mod_converse(b + x, n, q + 1, b + s - n);
    } else {
        assert(b + x == q * n + (b + s)) by (nonlinear_arith)
            requires
                x == n * q + s,
        ;
        lemma_fundamental_div_mod_converse(b + x, n, q, b + s);
    }
}

/// Closed form of the partial sums of the part sizes.
pub proof fn lemma_spread_sum(k: int, x: int, n: int)
    requires
        n >= 1,
        0 <= k <= n,
        x >= 0,
    ensures
        spread_sum(k, x, n) == k * (x / n) + if k + x % n > n {
            k + x % n - n
        } else {
            0
        },
    decreases k,
{
    lemma_mod_pos_bound(x, n);
    if k > 0 {
        let q = x / n;
        let s = x % n;
        lemma_spread_sum(k - 1, x, n);
        lemma_part_size(k - 1, x, n);
        assert(spread_sum(k, x, n) == spread_sum(k - 1, x, n) + ((k - 1) + x) / n);
        assert(k * q == (k - 1) * q + q) by (nonlinear_arith);
        assert(((k - 1) + x) / n == q + if (k - 1) + s >= n { 1int } else { 0int });
        assert(spread_sum(k - 1, x, n) == (k - 1) * q + if (k - 1) + s > n {
            (k - 1) + s - n
        } else {
            0
        });
    } else {
        assert(0 * (x / n) == 0) by (nonlinear_arith);
    }
}

/// The parts add up to `x`, and every partial sum stays within `x`.
pub proof fn lemma_spread_total(k: int, x: int, n: int)
    requires
        n >= 1,
        0 <= k <= n,
        x >= 0,
    ensures
        spread_sum(n, x, n) == x,
        0 <= spread_sum(k, x, n) <= x,
{
    lemma_spread_sum(k, x, n);
    lemma_spread_sum(n, x, n);
    lemma_fundamental_div_mod(x, n);
    let q = x / n;
    let s = x % n;
    assert(0 <= k * q <= n * q) by (nonlinear_arith)
        requires
            k <= n,
            q >= 0,
            k >= 0,
    ;
}

} // verus!
