//! Finite summation over an index range, with the algebraic lemmas the
//! matrix and graph proofs rest on: extensionality, linearity, exchange of
//! a double sum, and sums of functions supported on few points.

use vstd::arithmetic::mul::{lemma_mul_is_distributive_add, lemma_mul_is_distributive_add_other_way, lemma_mul_is_commutative};
use vstd::prelude::*;

verus! {

/// `f(0) + f(1) + ... + f(n-1)`.
pub open spec fn sum(n: nat, f: spec_fn(int) -> int) -> int
    decreases n,
{
    if n == 0 {
        0
    } else {
        sum((n - 1) as nat, f) + f(n - 1)
    }
}

/// Two functions that agree on `0..n` have the same sum there.
pub proof fn lemma_sum_ext(n: nat, f: spec_fn(int) -> int, g: spec_fn(int) -> int)
    requires
        forall|k: int| 0 <= k < n ==> #[trigger] f(k) == g(k),
    ensures
        sum(n, f) == sum(n, g),
    decreases n,
{
    if n > 0 {
        lemma_sum_ext((n - 1) as nat, f, g);
    }
}

/// A sum of zeros is zero.
pub proof fn lemma_sum_zero(n: nat, f: spec_fn(int) -> int)
    requires
        forall|k: int| 0 <= k < n ==> #[trigger] f(k) == 0,
    ensures
        sum(n, f) == 0,
    decreases n,
{
    if n > 0 {
        lemma_sum_zero((n - 1) as nat, f);
    }
}

/// Summation is additive: the sum of a pointwise sum splits.
pub proof fn lemma_sum_add(
    n: nat,
    f: spec_fn(int) -> int,
    g: spec_fn(int) -> int,
    h: spec_fn(int) -> int,
)
    requires
        forall|k: int| 0 <= k < n ==> #[trigger] h(k) == f(k) + g(k),
    ensures
        sum(n, h) == sum(n, f) + sum(n, g),
    decreases n,
{
    if n > 0 {
        lemma_sum_add((n - 1) as nat, f, g, h);
    }
}

/// A common factor on the right moves out of the sum.
pub proof fn lemma_sum_scale(n: nat, f: spec_fn(int) -> int, g: spec_fn(int) -> int, x: int)
    requires
        forall|k: int| 0 <= k < n ==> #[trigger] g(k) == f(k) * x,
    ensures
        sum(n, g) == sum(n, f) * x,
    decreases n,
{
    if n == 0 {
        assert(0 * x == 0) by (nonlinear_arith);
    } else {
        lemma_sum_scale((n - 1) as nat, f, g, x);
        lemma_mul_is_distributive_add_other_way(x, sum((n - 1) as nat, f), f(n - 1));
        lemma_mul_is_commutative(sum((n - 1) as nat, f) + f(n - 1), x);
        lemma_mul_is_commutative(sum((n - 1) as nat, f), x);
        lemma_mul_is_commutative(f(n - 1), x);
    }
}

/// A common factor on the left moves out of the sum.
pub proof fn lemma_sum_scale_left(n: nat, f: spec_fn(int) -> int, g: spec_fn(int) -> int, x: int)
    requires
        forall|k: int| 0 <= k < n ==> #[trigger] g(k) == x * f(k),
    ensures
        sum(n, g) == x * sum(n, f),
    decreases n,
{
    if n == 0 {
        assert(x * 0 == 0) by (nonlinear_arith);
    } else {
        lemma_sum_scale_left((n - 1) as nat, f, g, x);
        lemma_mul_is_distributive_add(x, sum((n - 1) as nat, f), f(n - 1));
    }
}

/// A pointwise bound between two functions carries over to their sums.
pub proof fn lemma_sum_le(n: nat, f: spec_fn(int) -> int, g: spec_fn(int) -> int)
    requires
        forall|k: int| 0 <= k < n ==> #[trigger] f(k) <= g(k),
    ensures
        sum(n, f) <= sum(n, g),
    decreases n,
{
    if n > 0 {
        lemma_sum_le((n - 1) as nat, f, g);
        assert(f(n - 1) <= g(n - 1));
    }
}

/// A prefix of a sum of non-negative values is at most the whole sum.
pub proof fn lemma_sum_prefix_bound(n: nat, f: spec_fn(int) -> int, k: nat)
    requires
        forall|i: int| 0 <= i < n ==> #[trigger] f(i) >= 0,
        k <= n,
    ensures
        sum(k, f) <= sum(n, f),
    decreases n,
{
    if k < n {
        lemma_sum_prefix_bound((n - 1) as nat, f, k);
        assert(f(n - 1) >= 0);
    }
}

/// A sum over `n + m` indices splits into the first `n` and the next `m`.
pub proof fn lemma_sum_split(n: nat, m: nat, f: spec_fn(int) -> int, g: spec_fn(int) -> int)
    requires
        forall|k: int| 0 <= k < m ==> #[trigger] g(k) == f(n + k),
    ensures
        sum(n + m, f) == sum(n, f) + sum(m, g),
    decreases m,
{
    if m > 0 {
        lemma_sum_split(n, (m - 1) as nat, f, g);
        assert(g(m - 1) == f(n + m - 1));
    }
}

/// A sum over `r * c` indices regrouped as `r` consecutive blocks of `c`.
pub proof fn lemma_sum_block(r: nat, c: nat, f: spec_fn(int) -> int)
    ensures
        sum(r * c, f) == sum(r, |i: int| sum(c, |j: int| f(i * c + j))),
    decreases r,
{
    let blocks = |i: int| sum(c, |j: int| f(i * c + j));
    if r == 0 {
        assert(r * c == 0) by (nonlinear_arith)
            requires
                r == 0,
        ;
    } else {
        let fewer = (r - 1) as nat;
        lemma_sum_block(fewer, c, f);
        let last_block = |j: int| f(fewer * c + j);
        lemma_sum_split(fewer * c, c, f, last_block);
        assert(r * c == fewer * c + c) by (nonlinear_arith)
            requires
                fewer == r - 1,
        ;
        assert((|j: int| f((r - 1) * c + j)) =~= last_block);
        assert(blocks(r - 1) == sum(c, last_block));
    }
}

/// The order of a double summation can be exchanged.
pub proof fn lemma_sum_swap(rows: nat, cols: nat, f: spec_fn(int, int) -> int)
    ensures
        sum(rows, |i: int| sum(cols, |j: int| f(i, j))) == sum(
            cols,
            |j: int| sum(rows, |i: int| f(i, j)),
        ),
    decreases rows,
{
    let outer_by_rows = |i: int| sum(cols, |j: int| f(i, j));
    let outer_by_cols = |j: int| sum(rows, |i: int| f(i, j));
    if rows == 0 {
        lemma_sum_zero(cols, |j: int| sum(0nat, |i: int| f(i, j)));
    } else {
        let fewer = (rows - 1) as nat;
        lemma_sum_swap(fewer, cols, f);
        let shorter_by_cols = |j: int| sum(fewer, |i: int| f(i, j));
        let last_row = |j: int| f(rows - 1, j);
        lemma_sum_add(cols, shorter_by_cols, last_row, outer_by_cols);
        assert(forall|j: int| 0 <= j < cols ==> #[trigger] outer_by_cols(j) == shorter_by_cols(j)
            + last_row(j));
    }
}

/// A sum of non-negative values is non-negative.
pub proof fn lemma_sum_nonneg(n: nat, f: spec_fn(int) -> int)
    requires
        forall|i: int| 0 <= i < n ==> #[trigger] f(i) >= 0,
    ensures
        sum(n, f) >= 0,
    decreases n,
{
    if n > 0 {
        lemma_sum_nonneg((n - 1) as nat, f);
        assert(f(n - 1) >= 0);
    }
}

/// Every term of a sum of non-negative values is at most the whole sum.
pub proof fn lemma_sum_nonneg_bound(n: nat, f: spec_fn(int) -> int, k: int)
    requires
        forall|i: int| 0 <= i < n ==> #[trigger] f(i) >= 0,
        0 <= k < n,
    ensures
        0 <= f(k) <= sum(n, f),
    decreases n,
{
    assert(f(k) >= 0);
    if k == n - 1 {
        lemma_sum_nonneg((n - 1) as nat, f);
    } else {
        lemma_sum_nonneg_bound((n - 1) as nat, f, k);
        assert(f(n - 1) >= 0);
    }
}

/// A sum of values that vanish away from one point `s` is `f(s)`.
pub proof fn lemma_sum_one_point(n: nat, f: spec_fn(int) -> int, s: int)
    requires
        0 <= s < n,
        forall|k: int| 0 <= k < n && k != s ==> #[trigger] f(k) == 0,
    ensures
        sum(n, f) == f(s),
    decreases n,
{
    if s == n - 1 {
        lemma_sum_zero((n - 1) as nat, f);
    } else {
        lemma_sum_one_point((n - 1) as nat, f, s);
    }
}

/// A sum of values that vanish away from two points `s != d` is `f(s) + f(d)`.
pub proof fn lemma_sum_two_points(n: nat, f: spec_fn(int) -> int, s: int, d: int)
    requires
        0 <= s < n,
        0 <= d < n,
        s != d,
        forall|k: int| 0 <= k < n && k != s && k != d ==> #[trigger] f(k) == 0,
    ensures
        sum(n, f) == f(s) + f(d),
    decreases n,
{
    if s == n - 1 {
        lemma_sum_one_point((n - 1) as nat, f, d);
    } else if d == n - 1 {
        lemma_sum_one_point((n - 1) as nat, f, s);
    } else {
        lemma_sum_two_points((n - 1) as nat, f, s, d);
    }
}

} // verus!
