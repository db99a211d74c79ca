//! The area of a column beside a moving boundary.
//!
//! A boundary at distance `p` left of the right side of a column of width `k`
//! leaves `clip(k, p)` of the column's width to its right. `ramp(k, p)` is
//! twice the integral of that over all smaller distances. Its difference
//! between two distances, divided by how far they are apart, is twice the mean
//! width right of a boundary that moves from one to the other.
use vstd::prelude::*;

verus! {

/// Width right of a boundary at distance `p` from the right side of a column of
/// width `k`.
pub open spec fn clip(k: int, p: int) -> int {
    if p <= 0 {
        0
    } else if p <= k {
        p
    } else {
        k
    }
}

/// Twice the integral of `clip(k, _)` up to `p`.
pub open spec fn ramp(k: int, p: int) -> int {
    if p <= 0 {
        0
    } else if p <= k {
        p * p
    } else {
        k * k + 2 * k * (p - k)
    }
}

/// `n / d` is at least twice the mean width right of a boundary that moves
/// between the distances `p0` and `p1`.
pub open spec fn above(k: int, p0: int, p1: int, n: int, d: int) -> bool {
    &&& p0 <= p1
    &&& d > 0
    &&& n * (p1 - p0) >= d * (ramp(k, p1) - ramp(k, p0))
    &&& n >= 2 * d * clip(k, p0)
}

/// `n / d` is at most twice the mean width right of a boundary that moves
/// between the distances `p0` and `p1`.
pub open spec fn below(k: int, p0: int, p1: int, n: int, d: int) -> bool {
    &&& p0 <= p1
    &&& d > 0
    &&& n * (p1 - p0) <= d * (ramp(k, p1) - ramp(k, p0))
    &&& n <= 2 * d * clip(k, p1)
}

/// The width changes by no more than the distance, and never against it.
proof fn lemma_clip(k: int, p: int, q: int)
    requires
        0 <= k,
        p <= q,
    ensures
        clip(k, p) <= clip(k, q) <= clip(k, p) + (q - p),
        0 <= clip(k, p) <= k,
{
}

/// The ramp lies above each of its tangents, and within a parabola of it.
proof fn lemma_tangent(k: int, p: int, q: int)
    requires
        0 <= k,
    ensures
        0 <= ramp(k, q) - ramp(k, p) - 2 * clip(k, p) * (q - p) <= (q - p) * (q - p),
{
    let c = clip(k, p);
    let bp = ramp(k, p);
    let bq = ramp(k, q);
    if p <= 0 {
        assert(0 <= bq <= (q - p) * (q - p)) by {
            if q <= 0 {
                lemma_square(q - p);
            } else if q <= k {
                assert(0 <= q * q <= (q - p) * (q - p)) by (nonlinear_arith)
                    requires
                        p <= 0,
                        0 < q,
                ;
            } else {
                assert(0 <= k * k + 2 * k * (q - k) <= (q - p) * (q - p)) by (nonlinear_arith)
                    requires
                        p <= 0,
                        0 <= k < q,
                ;
            }
        }
        assert(2 * c * (q - p) == 0) by (nonlinear_arith)
            requires
                c == 0,
        ;
    } else if p <= k {
        if q <= 0 {
            assert(0 <= -(p * p) - 2 * p * (q - p) <= (q - p) * (q - p)) by (nonlinear_arith)
                requires
                    q <= 0 < p,
            ;
        } else if q <= k {
            assert(q * q - p * p - 2 * p * (q - p) == (q - p) * (q - p)) by (nonlinear_arith);
            lemma_square(q - p);
        } else {
            assert(k * k + 2 * k * (q - k) - p * p - 2 * p * (q - p) == (k - p) * (2 * q - k - p))
                by (nonlinear_arith);
            assert((q - p) * (q - p) - (k - p) * (2 * q - k - p) == (q - k) * (q - k))
                by (nonlinear_arith);
            assert(0 <= (k - p) * (2 * q - k - p)) by (nonlinear_arith)
                requires
                    p <= k < q,
            ;
            lemma_square(q - k);
        }
    } else {
        assert(k * k + 2 * k * (p - k) + 2 * k * (q - p) == 2 * k * q - k * k) by (nonlinear_arith);
        if q <= 0 {
            assert(0 <= k * k - 2 * k * q <= (q - p) * (q - p)) by (nonlinear_arith)
                requires
                    q <= 0,
                    0 <= k < p,
            ;
        } else if q <= k {
            assert(q * q - (2 * k * q - k * k) == (k - q) * (k - q)) by (nonlinear_arith);
            lemma_square(k - q);
            assert((k - q) * (k - q) <= (q - p) * (q - p)) by (nonlinear_arith)
                requires
                    q <= k < p,
            ;
        } else {
            assert(k * k + 2 * k * (q - k) == 2 * k * q - k * k) by (nonlinear_arith);
            lemma_square(q - p);
        }
    }
}

proof fn lemma_square(x: int)
    ensures
        0 <= x * x,
{
    assert(0 <= x * x) by (nonlinear_arith);
}

/// Moving both distances by `t` changes the mean width by no more than `t`.
proof fn lemma_shift(k: int, p0: int, p1: int, t: int)
    requires
        0 <= k,
        p0 <= p1,
        0 <= t,
    ensures
        ramp(k, p1 + t) - ramp(k, p0 + t) <= ramp(k, p1) - ramp(k, p0) + 2 * t * (p1 - p0),
{
    let w = p1 - p0;
    let a0 = ramp(k, p0);
    let a1 = ramp(k, p1);
    let b0 = ramp(k, p0 + t);
    let b1 = ramp(k, p1 + t);
    if p0 + t <= p1 {
        // Each end moves by `t`: compare the two moves.
        let c0 = clip(k, p0 + t);
        let c1 = clip(k, p1);
        lemma_tangent(k, p0 + t, p0);
        lemma_tangent(k, p1, p1 + t);
        lemma_clip(k, p0 + t, p1);
        assert(2 * c0 * (p0 - (p0 + t)) == -(2 * c0 * t)) by (nonlinear_arith);
        assert(p0 - (p0 + t) == -t);
        assert((-t) * (-t) == t * t) by (nonlinear_arith);
        // b0 - a0 >= 2 c0 t - t^2 and b1 - a1 <= 2 c1 t + t^2.
        assert(2 * c1 * t + t * t <= 2 * c0 * t - t * t + 2 * t * w) by (nonlinear_arith)
            requires
                c1 <= c0 + (w - t),
                0 <= t,
        ;
    } else {
        let c0 = clip(k, p0 + t);
        let c1 = clip(k, p1);
        lemma_tangent(k, p0 + t, p1 + t);
        lemma_tangent(k, p1, p0);
        lemma_clip(k, p1, p0 + t);
        assert(p0 - p1 == -w);
        assert(2 * c1 * (-w) == -(2 * c1 * w)) by (nonlinear_arith);
        assert((-w) * (-w) == w * w) by (nonlinear_arith);
        // b1 - b0 <= 2 c0 w + w^2 and a1 - a0 >= 2 c1 w - w^2.
        assert(2 * c0 * w + w * w <= 2 * c1 * w - w * w + 2 * t * w) by (nonlinear_arith)
            requires
                c0 <= c1 + (t - w),
                0 <= w,
        ;
    }
}

/// An upper bound of a mean bounds the means of smaller distances, and grows by
/// no more than twice what the distances may exceed.
pub proof fn lemma_above(
    k: int,
    p0: int,
    p1: int,
    q0: int,
    q1: int,
    n: int,
    d: int,
    t: int,
)
    requires
        0 <= k,
        above(k, p0, p1, n, d),
        q0 <= q1,
        0 <= t,
        q0 <= p0 + t,
        q1 <= p1 + t,
    ensures
        above(k, q0, q1, n + 2 * t * d, d),
{
    let m = n + 2 * t * d;
    let r0 = p0 + t;
    let r1 = p1 + t;
    lemma_shift(k, p0, p1, t);
    lemma_clip(k, p0, r0);
    lemma_lift(n, d, t, p1 - p0, ramp(k, p1) - ramp(k, p0), ramp(k, r1) - ramp(k, r0));
    assert(m >= 2 * d * clip(k, r0)) by (nonlinear_arith)
        requires
            n >= 2 * d * clip(k, p0),
            clip(k, r0) <= clip(k, p0) + t,
            m == n + 2 * t * d,
            d > 0,
    ;
    assert(r1 - r0 == p1 - p0);
    // Lower the lower end.
    let c0 = clip(k, r0);
    lemma_tangent(k, r0, q0);
    lemma_lower(m, d, c0, r0 - q0, ramp(k, r0) - ramp(k, q0));
    assert(m * (r1 - q0) == m * (r1 - r0) + m * (r0 - q0)) by (nonlinear_arith);
    assert(d * (ramp(k, r1) - ramp(k, q0)) == d * (ramp(k, r1) - ramp(k, r0)) + d * (ramp(k, r0)
        - ramp(k, q0))) by (nonlinear_arith);
    assert(m * (r1 - q0) >= d * (ramp(k, r1) - ramp(k, q0)));
    lemma_clip(k, q0, r0);
    assert(m >= 2 * d * clip(k, q0)) by (nonlinear_arith)
        requires
            m >= 2 * d * c0,
            clip(k, q0) <= c0,
            d > 0,
    ;
    // Lower the upper end.
    let c1 = clip(k, q1);
    lemma_tangent(k, q1, q0);
    lemma_tangent(k, q1, r1);
    if m * (q1 - q0) < d * (ramp(k, q1) - ramp(k, q0)) {
        let g = q1 - q0;
        let f = ramp(k, q1) - ramp(k, q0);
        assert(f <= 2 * c1 * g) by {
            assert(q0 - q1 == -g);
            assert(2 * c1 * (-g) == -(2 * c1 * g)) by (nonlinear_arith);
        }
        assert(m < 2 * d * c1) by (nonlinear_arith)
            requires
                m * g < d * f,
                f <= 2 * c1 * g,
                0 <= g,
                d > 0,
        {
            assert(d * f <= d * (2 * c1 * g));
            assert(d * (2 * c1 * g) == (2 * d * c1) * g);
        }
        let u = r1 - q1;
        let v = ramp(k, r1) - ramp(k, q1);
        assert(d * v >= m * u) by (nonlinear_arith)
            requires
                v >= 2 * c1 * u,
                m < 2 * d * c1,
                0 <= u,
                d > 0,
        {
            assert(d * v >= d * (2 * c1 * u));
            assert(d * (2 * c1 * u) == (2 * d * c1) * u);
        }
        assert(m * (r1 - q0) == m * u + m * g) by (nonlinear_arith)
            requires
                r1 - q0 == u + g,
        ;
        assert(d * (ramp(k, r1) - ramp(k, q0)) == d * v + d * f) by (nonlinear_arith)
            requires
                ramp(k, r1) - ramp(k, q0) == v + f,
        ;
        assert(false);
    }
}

proof fn lemma_lift(n: int, d: int, t: int, w: int, a: int, b: int)
    by (nonlinear_arith)
    requires
        n * w >= d * a,
        b <= a + 2 * t * w,
        d > 0,
    ensures
        (n + 2 * t * d) * w >= d * b,
{
    assert((n + 2 * t * d) * w == n * w + d * (2 * t * w));
    assert(d * b <= d * (a + 2 * t * w));
    assert(d * (a + 2 * t * w) == d * a + d * (2 * t * w));
}

proof fn lemma_lower(m: int, d: int, c: int, w: int, f: int)
    by (nonlinear_arith)
    requires
        -f - 2 * c * (-w) >= 0,
        m >= 2 * d * c,
        0 <= w,
        d > 0,
    ensures
        m * w >= d * f,
{
    assert(f <= 2 * c * w);
    assert(d * f <= d * (2 * c * w));
    assert(d * (2 * c * w) == (2 * d * c) * w);
    assert(m * w >= (2 * d * c) * w);
}

/// Seen from the left side of the column.
proof fn lemma_mirror(k: int, p: int)
    requires
        0 <= k,
    ensures
        ramp(k, k - p) == ramp(k, p) + k * k - 2 * k * p,
        clip(k, k - p) == k - clip(k, p),
{
    if p <= 0 {
        assert(k * k + 2 * k * ((k - p) - k) == k * k - 2 * k * p) by (nonlinear_arith);
        if k - p <= k {
            assert((k - p) * (k - p) == k * k - 2 * k * p) by (nonlinear_arith)
                requires
                    p == 0,
            ;
        }
        if k - p <= 0 {
            assert(k * k - 2 * k * p == 0) by (nonlinear_arith)
                requires
                    k == 0,
            ;
        }
    } else if p <= k {
        assert((k - p) * (k - p) == p * p + k * k - 2 * k * p) by (nonlinear_arith);
        if p == k {
            assert((k - p) * (k - p) == 0) by (nonlinear_arith)
                requires
                    p == k,
            ;
        }
    } else {
        assert(k * k + 2 * k * (p - k) + k * k - 2 * k * p == 0) by (nonlinear_arith);
    }
}

/// A lower bound of a mean bounds the means of larger distances, and falls by
/// no more than twice what the distances may fall short.
pub proof fn lemma_below(
    k: int,
    p0: int,
    p1: int,
    q0: int,
    q1: int,
    n: int,
    d: int,
    t: int,
)
    requires
        0 <= k,
        below(k, p0, p1, n, d),
        q0 <= q1,
        0 <= t,
        p0 - t <= q0,
        p1 - t <= q1,
    ensures
        below(k, q0, q1, n - 2 * t * d, d),
{
    lemma_mirror(k, p0);
    lemma_mirror(k, p1);
    lemma_mirror(k, q0);
    lemma_mirror(k, q1);
    let m = 2 * k * d - n;
    lemma_mirrored(k, n, d, p1 - p0, ramp(k, p1) - ramp(k, p0));
    assert(ramp(k, k - p0) - ramp(k, k - p1) == 2 * k * (p1 - p0) - (ramp(k, p1) - ramp(k, p0)))
        by {
        assert(2 * k * (p1 - p0) == 2 * k * p1 - 2 * k * p0) by (nonlinear_arith);
    }
    assert(m >= 2 * d * (k - clip(k, p1))) by (nonlinear_arith)
        requires
            m == 2 * k * d - n,
            n <= 2 * d * clip(k, p1),
    ;
    assert((k - p0) - (k - p1) == p1 - p0);
    lemma_above(k, k - p1, k - p0, k - q1, k - q0, m, d, t);
    let r = n - 2 * t * d;
    assert(m + 2 * t * d == 2 * k * d - r);
    assert(ramp(k, k - q0) - ramp(k, k - q1) == 2 * k * (q1 - q0) - (ramp(k, q1) - ramp(k, q0)))
        by {
        assert(2 * k * (q1 - q0) == 2 * k * q1 - 2 * k * q0) by (nonlinear_arith);
    }
    assert((k - q0) - (k - q1) == q1 - q0);
    lemma_mirrored_back(k, r, d, q1 - q0, ramp(k, q1) - ramp(k, q0));
    assert(r <= 2 * d * clip(k, q1)) by (nonlinear_arith)
        requires
            2 * k * d - r >= 2 * d * (k - clip(k, q1)),
    ;
}

proof fn lemma_mirrored(k: int, n: int, d: int, w: int, f: int)
    by (nonlinear_arith)
    requires
        n * w <= d * f,
    ensures
        (2 * k * d - n) * w >= d * (2 * k * w - f),
{
    assert((2 * k * d - n) * w == d * (2 * k * w) - n * w);
    assert(d * (2 * k * w - f) == d * (2 * k * w) - d * f);
}

proof fn lemma_mirrored_back(k: int, n: int, d: int, w: int, f: int)
    by (nonlinear_arith)
    requires
        (2 * k * d - n) * w >= d * (2 * k * w - f),
    ensures
        n * w <= d * f,
{
    assert((2 * k * d - n) * w == d * (2 * k * w) - n * w);
    assert(d * (2 * k * w - f) == d * (2 * k * w) - d * f);
}

/// The mean width lies between those at the two ends.
pub proof fn lemma_mean(k: int, p0: int, p1: int)
    requires
        0 <= k,
        p0 <= p1,
    ensures
        2 * clip(k, p0) * (p1 - p0) <= ramp(k, p1) - ramp(k, p0) <= 2 * clip(k, p1) * (p1 - p0),
{
    lemma_tangent(k, p0, p1);
    lemma_tangent(k, p1, p0);
    let c = clip(k, p1);
    assert(2 * c * (p0 - p1) == -(2 * c * (p1 - p0))) by (nonlinear_arith);
}

/// Scaling all distances.
pub proof fn lemma_scale(k: int, p: int, s: int)
    requires
        0 <= k,
        0 < s,
    ensures
        ramp(k * s, p * s) == ramp(k, p) * (s * s),
        clip(k * s, p * s) == clip(k, p) * s,
{
    assert(p <= 0 <==> p * s <= 0) by (nonlinear_arith)
        requires
            0 < s,
    ;
    assert(p <= k <==> p * s <= k * s) by (nonlinear_arith)
        requires
            0 < s,
    ;
    assert(0 * s == 0 && 0 * (s * s) == 0) by (nonlinear_arith);
    assert((p * s) * (p * s) == (p * p) * (s * s)) by (nonlinear_arith);
    assert((k * s) * (k * s) + 2 * (k * s) * (p * s - k * s) == (k * k + 2 * k * (p - k)) * (s * s))
        by (nonlinear_arith);
}

/// Scaling all distances scales the bounds of a mean.
pub proof fn lemma_scale_bounds(k: int, p0: int, p1: int, n: int, m: int, d: int, s: int)
    requires
        0 <= k,
        0 < s,
        above(k, p0, p1, n, d),
        below(k, p0, p1, m, d),
    ensures
        above(k * s, p0 * s, p1 * s, n * s, d),
        below(k * s, p0 * s, p1 * s, m * s, d),
{
    lemma_scale(k, p0, s);
    lemma_scale(k, p1, s);
    let f = ramp(k, p1) - ramp(k, p0);
    let w = p1 - p0;
    assert(p0 * s <= p1 * s) by (nonlinear_arith)
        requires
            p0 <= p1,
            0 < s,
    ;
    assert(ramp(k, p1) * (s * s) - ramp(k, p0) * (s * s) == f * (s * s)) by (nonlinear_arith)
        requires
            f == ramp(k, p1) - ramp(k, p0),
    ;
    assert(p1 * s - p0 * s == w * s) by (nonlinear_arith)
        requires
            w == p1 - p0,
    ;
    assert((n * s) * (w * s) == (n * w) * (s * s)) by (nonlinear_arith);
    assert((m * s) * (w * s) == (m * w) * (s * s)) by (nonlinear_arith);
    assert(d * (f * (s * s)) == (d * f) * (s * s)) by (nonlinear_arith);
    let z = s * s;
    assert((m * w) * z <= (d * f) * z <= (n * w) * z) by (nonlinear_arith)
        requires
            m * w <= d * f <= n * w,
            z == s * s,
            0 < s,
    {
        assert(z >= 0);
    }
    let c0 = clip(k, p0);
    let c1 = clip(k, p1);
    assert(2 * d * (c0 * s) == (2 * d * c0) * s) by (nonlinear_arith);
    assert(2 * d * (c1 * s) == (2 * d * c1) * s) by (nonlinear_arith);
    assert(n * s >= (2 * d * c0) * s) by (nonlinear_arith)
        requires
            n >= 2 * d * c0,
            0 < s,
    ;
    assert(m * s <= (2 * d * c1) * s) by (nonlinear_arith)
        requires
            m <= 2 * d * c1,
            0 < s,
    ;
}

} // verus!
