//! Finite sums over integer ranges.
use crate::fixed;
use vstd::prelude::*;

verus! {

/// `f(0) + f(1) + ... + f(n - 1)`.
pub open spec fn sum(n: int, f: spec_fn(int) -> int) -> int
    decreases n,
{
    if n <= 0 {
        0
    } else {
        sum(n - 1, f) + f(n - 1)
    }
}

/// Sums of equal terms are equal.
pub proof fn lemma_sum_eq(n: int, f: spec_fn(int) -> int, g: spec_fn(int) -> int)
    requires
        forall|i: int| 0 <= i < n ==> #[trigger] f(i) == g(i),
    ensures
        sum(n, f) == sum(n, g),
    decreases n,
{
    if n > 0 {
        lemma_sum_eq(n - 1, f, g);
    }
}

/// A sum of zeros is zero.
pub proof fn lemma_sum_zero(n: int, f: spec_fn(int) -> int)
    requires
        forall|i: int| 0 <= i < n ==> #[trigger] f(i) == 0,
    ensures
        sum(n, f) == 0,
    decreases n,
{
    if n > 0 {
        lemma_sum_zero(n - 1, f);
    }
}

/// Changing one term changes the sum by the same amount.
pub proof fn lemma_sum_point(n: int, f: spec_fn(int) -> int, g: spec_fn(int) -> int, x: int)
    requires
        0 <= x < n,
        forall|i: int| 0 <= i < n && i != x ==> #[trigger] f(i) == g(i),
    ensures
        sum(n, f) == sum(n, g) + f(x) - g(x),
    decreases n,
{
    if n - 1 == x {
        lemma_sum_eq(n - 1, f, g);
    } else {
        lemma_sum_point(n - 1, f, g, x);
    }
}

/// The sum of sums.
pub proof fn lemma_sum_add(
    n: int,
    f: spec_fn(int) -> int,
    g: spec_fn(int) -> int,
    h: spec_fn(int) -> int,
)
    requires
        forall|i: int| 0 <= i < n ==> #[trigger] h(i) == f(i) + g(i),
    ensures
        sum(n, h) == sum(n, f) + sum(n, g),
    decreases n,
{
    if n > 0 {
        lemma_sum_add(n - 1, f, g, h);
    }
}

/// A sum split in two.
pub proof fn lemma_sum_concat(
    n: int,
    m: int,
    f: spec_fn(int) -> int,
    g: spec_fn(int) -> int,
    h: spec_fn(int) -> int,
)
    requires
        0 <= n,
        0 <= m,
        forall|i: int| 0 <= i < n ==> #[trigger] h(i) == f(i),
        forall|i: int| 0 <= i < m ==> h(n + i) == #[trigger] g(i),
    ensures
        sum(n + m, h) == sum(n, f) + sum(m, g),
    decreases m,
{
    if m > 0 {
        lemma_sum_concat(n, m - 1, f, g, h);
        assert(h(n + (m - 1)) == g(m - 1));
    } else {
        lemma_sum_eq(n, h, f);
    }
}

/// The sum of opposites.
pub proof fn lemma_sum_neg(n: int, f: spec_fn(int) -> int, g: spec_fn(int) -> int)
    requires
        forall|i: int| 0 <= i < n ==> #[trigger] g(i) == -f(i),
    ensures
        sum(n, g) == -sum(n, f),
    decreases n,
{
    if n > 0 {
        lemma_sum_neg(n - 1, f, g);
    }
}

/// The sum of multiples.
pub proof fn lemma_sum_scale(n: int, f: spec_fn(int) -> int, g: spec_fn(int) -> int, k: int)
    requires
        forall|i: int| 0 <= i < n ==> #[trigger] g(i) == k * f(i),
    ensures
        sum(n, g) == k * sum(n, f),
    decreases n,
{
    if n > 0 {
        lemma_sum_scale(n - 1, f, g, k);
        let a = sum(n - 1, f);
        let b = f(n - 1);
        assert(k * (a + b) == k * a + k * b) by (nonlinear_arith);
    } else {
        assert(k * 0 == 0) by (nonlinear_arith);
    }
}

/// A sum of terms bounded in magnitude.
pub proof fn lemma_sum_magnitude(n: int, f: spec_fn(int) -> int, g: spec_fn(int) -> int)
    requires
        forall|i: int| 0 <= i < n ==> fixed::abs(#[trigger] f(i)) <= g(i),
    ensures
        fixed::abs(sum(n, f)) <= sum(n, g),
    decreases n,
{
    if n > 0 {
        lemma_sum_magnitude(n - 1, f, g);
    }
}

/// A sum of `n` terms, none of which exceeds `b` in magnitude.
pub proof fn lemma_sum_bound(n: int, f: spec_fn(int) -> int, b: int)
    requires
        0 <= n,
        0 <= b,
        forall|i: int| 0 <= i < n ==> fixed::abs(#[trigger] f(i)) <= b,
    ensures
        fixed::abs(sum(n, f)) <= n * b,
    decreases n,
{
    if n > 0 {
        lemma_sum_bound(n - 1, f, b);
        assert(n * b == (n - 1) * b + b) by (nonlinear_arith);
    } else {
        assert(n * b == 0) by (nonlinear_arith)
            requires
                n == 0,
        ;
    }
}

} // verus!
