//! Flattened curves against the curves themselves.
//!
//! The properties here hold in exact arithmetic. A value `v` gives each
//! coordinate as a whole number, fine enough that the midpoints that occur are
//! whole numbers too. Times on a curve are whole numbers out of `n`.
use crate::curve;
use crate::curve::{Chord, Cubic, CubicOps, Quad, QuadOps};
use crate::fixed;
use crate::outline::Outline;
use crate::trace;
use crate::trace::Side;
use vstd::prelude::*;

verus! {

/// `n * n` times the point at time `t / n` of a quadratic Bézier curve, along
/// one axis.
pub open spec fn quad_at(a: int, b: int, c: int, t: int, n: int) -> int {
    (n - t) * (n - t) * a + 2 * (t * (n - t)) * b + t * t * c
}

/// `n * n * n` times the point at time `t / n` of a cubic Bézier curve, along
/// one axis.
pub open spec fn cubic_at(a: int, b: int, c: int, d: int, t: int, n: int) -> int {
    (n - t) * (n - t) * (n - t) * a + 3 * (t * (n - t) * (n - t)) * b + 3 * (t * t * (n - t)) * c
        + t * t * t * d
}

/// The midpoint is exact wherever it is a whole number.
pub open spec fn exact_mid<T>(v: spec_fn(T) -> int, mid: spec_fn(T, T) -> T) -> bool {
    forall|a: T, b: T|
        (v(a) + v(b)) % 2 == 0 ==> 2 * v(#[trigger] mid(a, b)) == v(a) + v(b)
}

/// A curve is flat if twice its control point is within `tol` of the sum of its
/// ends.
pub open spec fn quad_is_exact<T>(v: spec_fn(T) -> int, ops: QuadOps<T>, tol: int) -> bool {
    &&& exact_mid(v, ops.mid)
    &&& forall|a: T, b: T, c: T| #[trigger]
        (ops.flat)(a, b, c) == (fixed::abs(v(a) - 2 * v(b) + v(c)) <= tol)
}

/// A point of a quadratic curve at time `t / n`.
pub open spec fn on_quad<T>(
    v: spec_fn(T) -> int,
    q: Quad<T>,
    p: (T, T),
    t: int,
    n: int,
) -> bool {
    &&& v(p.0) * (n * n) == quad_at(v(q.x0), v(q.x1), v(q.x2), t, n)
    &&& v(p.1) * (n * n) == quad_at(v(q.y0), v(q.y1), v(q.y2), t, n)
}

/// The part of a quadratic curve that takes `g / n` of its time is flat along
/// one axis.
pub open spec fn part_is_flat(a: int, b: int, c: int, g: int, n: int, tol: int) -> bool {
    fixed::abs(a - 2 * b + c) * (g * g) <= tol * (n * n)
}

/// The chords run through points of the curve at the given times, from its
/// first to its last. Each chord stands for a part that is flat along both axes,
/// or as short as can be; and no part is shorter than flatness asks for.
pub open spec fn follows_quad<T>(
    v: spec_fn(T) -> int,
    tol: int,
    q: Quad<T>,
    n: int,
    pts: Seq<(T, T)>,
    times: Seq<int>,
) -> bool {
    let flat = |g: int|
        part_is_flat(v(q.x0), v(q.x1), v(q.x2), g, n, tol) && part_is_flat(
            v(q.y0),
            v(q.y1),
            v(q.y2),
            g,
            n,
            tol,
        );
    &&& 2 <= pts.len() == times.len()
    &&& times[0] == 0
    &&& times.last() == n
    &&& pts[0] == (q.x0, q.y0)
    &&& pts.last() == (q.x2, q.y2)
    &&& forall|i: int| 0 <= i < pts.len() ==> on_quad(v, q, #[trigger] pts[i], times[i], n)
    &&& forall|i: int, j: int|
        0 <= i && j == i + 1 && j < times.len() ==> {
            let g = #[trigger] times[j] - #[trigger] times[i];
            &&& 0 < g
            &&& flat(g) || g == 1
            &&& g == n || !flat(2 * g)
        }
}

/// The chords between consecutive points.
pub open spec fn chords_between<T>(
    fix: spec_fn(T) -> i32,
    pts: Seq<(T, T)>,
    chords: Seq<Chord>,
) -> bool {
    &&& chords.len() + 1 == pts.len()
    &&& forall|i: int, j: int|
        0 <= i && j == i + 1 && j < pts.len() ==> chords[i] == (
            (fix((#[trigger] pts[i]).0), fix(pts[i].1)),
            (fix((#[trigger] pts[j]).0), fix(pts[j].1)),
        )
}

/// Shortest part of a curve that has been halved `depth` times already, as a
/// fraction of it.
pub open spec fn finest(depth: int) -> int
    decreases curve::MAX_DEPTH - depth,
{
    if depth >= curve::MAX_DEPTH {
        1
    } else {
        2 * finest(depth + 1)
    }
}

proof fn lemma_finest(depth: int)
    ensures
        0 < finest(depth),
    decreases curve::MAX_DEPTH - depth,
{
    if depth < curve::MAX_DEPTH {
        lemma_finest(depth + 1);
    }
}

/// A quadratic in powers of the time.
proof fn lemma_quad_powers(a: int, b: int, c: int, t: int, n: int)
    ensures
        quad_at(a, b, c, t, n) == n * n * a + 2 * (n * t) * (b - a) + t * t * (a - 2 * b + c),
{
    assert((n - t) * (n - t) == n * n - 2 * (n * t) + t * t) by (nonlinear_arith);
    assert(t * (n - t) == n * t - t * t) by (nonlinear_arith);
    let nn = n * n;
    let nt = n * t;
    let tt = t * t;
    assert((nn - 2 * nt + tt) * a + 2 * (nt - tt) * b + tt * c == nn * a + 2 * nt * (b - a) + tt * (a
        - 2 * b + c)) by (nonlinear_arith);
}

/// From the other end of the curve.
proof fn lemma_quad_mirror(a: int, b: int, c: int, t: int, n: int)
    ensures
        quad_at(a, b, c, t, n) == quad_at(c, b, a, n - t, n),
{
    assert(n - (n - t) == t);
    assert(t * (n - t) == (n - t) * t) by (nonlinear_arith);
}

/// The first half of a quadratic curve is the curve at half the speed.
proof fn lemma_quad_left(a: int, b: int, c: int, l1: int, l2: int, t: int, m: int)
    requires
        2 * l1 == a + b,
        4 * l2 == a + 2 * b + c,
    ensures
        4 * quad_at(a, l1, l2, t, m) == quad_at(a, b, c, t, 2 * m),
{
    lemma_quad_powers(a, l1, l2, t, m);
    lemma_quad_powers(a, b, c, t, 2 * m);
    let d = l1 - a;
    let s = a - 2 * l1 + l2;
    assert(b - a == 2 * d && a - 2 * b + c == 4 * s);
    assert((2 * m) * (2 * m) * a == 4 * (m * m * a)) by (nonlinear_arith);
    assert(2 * ((2 * m) * t) * (2 * d) == 4 * (2 * (m * t) * d)) by (nonlinear_arith);
    assert(t * t * (4 * s) == 4 * (t * t * s)) by (nonlinear_arith);
}

/// The second half of a quadratic curve.
proof fn lemma_quad_right(a: int, b: int, c: int, r0: int, r1: int, t: int, m: int)
    requires
        2 * r1 == b + c,
        4 * r0 == a + 2 * b + c,
    ensures
        4 * quad_at(r0, r1, c, t, m) == quad_at(a, b, c, t + m, 2 * m),
{
    lemma_quad_mirror(r0, r1, c, t, m);
    lemma_quad_left(c, b, a, r1, r0, m - t, m);
    lemma_quad_mirror(a, b, c, t + m, 2 * m);
    assert(2 * m - (t + m) == m - t);
}

/// Halving whole numbers that are multiples of `2 * m`.
proof fn lemma_half(a: int, b: int, x: int, m: int)
    requires
        0 < m,
        a % (2 * m) == 0,
        b % (2 * m) == 0,
        2 * x == a + b,
    ensures
        x % m == 0,
{
    let p = a / (2 * m);
    let q = b / (2 * m);
    vstd::arithmetic::div_mod::lemma_fundamental_div_mod(a, 2 * m);
    vstd::arithmetic::div_mod::lemma_fundamental_div_mod(b, 2 * m);
    assert(x == (p + q) * m) by (nonlinear_arith)
        requires
            2 * x == (2 * m) * p + (2 * m) * q,
    ;
    vstd::arithmetic::div_mod::lemma_mod_multiples_basic(p + q, m);
}

/// Multiples of `2 * m` are even.
proof fn lemma_even(a: int, m: int)
    requires
        0 < m,
        a % (2 * m) == 0,
    ensures
        a % 2 == 0,
        a % m == 0,
{
    let p = a / (2 * m);
    vstd::arithmetic::div_mod::lemma_fundamental_div_mod(a, 2 * m);
    assert((2 * m) * p == (2 * p) * m && (2 * m) * p == (m * p) * 2) by (nonlinear_arith);
    vstd::arithmetic::div_mod::lemma_mod_multiples_basic(2 * p, m);
    vstd::arithmetic::div_mod::lemma_mod_multiples_basic(m * p, 2);
}

/// The control points of both halves, along one axis.
proof fn lemma_quad_axis<T>(v: spec_fn(T) -> int, mid: spec_fn(T, T) -> T, a: T, b: T, c: T, m: int)
    requires
        exact_mid(v, mid),
        0 < m,
        v(a) % (4 * m) == 0,
        v(b) % (4 * m) == 0,
        v(c) % (4 * m) == 0,
    ensures
        2 * v(mid(a, b)) == v(a) + v(b),
        2 * v(mid(b, c)) == v(b) + v(c),
        4 * v(mid(mid(a, b), mid(b, c))) == v(a) + 2 * v(b) + v(c),
        v(a) % m == 0,
        v(c) % m == 0,
        v(mid(a, b)) % m == 0,
        v(mid(b, c)) % m == 0,
        v(mid(mid(a, b), mid(b, c))) % m == 0,
{
    let ab = mid(a, b);
    let bc = mid(b, c);
    assert(2 * (2 * m) == 4 * m);
    lemma_even(v(a), 2 * m);
    lemma_even(v(b), 2 * m);
    lemma_even(v(c), 2 * m);
    lemma_half(v(a), v(b), v(ab), 2 * m);
    lemma_half(v(b), v(c), v(bc), 2 * m);
    lemma_even(v(ab), m);
    lemma_even(v(bc), m);
    lemma_even(v(a), m);
    lemma_even(v(c), m);
    lemma_half(v(ab), v(bc), v(mid(ab, bc)), m);
}

/// Flatness of a part of one half.
proof fn lemma_flat_half(a: int, b: int, c: int, x: int, y: int, z: int, g: int, m: int, tol: int)
    requires
        4 * (x - 2 * y + z) == a - 2 * b + c,
    ensures
        part_is_flat(a, b, c, g, 2 * m, tol) == part_is_flat(x, y, z, g, m, tol),
{
    let s = fixed::abs(x - 2 * y + z);
    assert(fixed::abs(a - 2 * b + c) == 4 * s);
    assert((4 * s) * (g * g) == 4 * (s * (g * g))) by (nonlinear_arith);
    assert(tol * ((2 * m) * (2 * m)) == 4 * (tol * (m * m))) by (nonlinear_arith);
}

/// The points and times of the chords of a quadratic curve that has been halved
/// `depth` times already.
proof fn lemma_quad_follows<T>(
    ops: QuadOps<T>,
    v: spec_fn(T) -> int,
    tol: int,
    q: Quad<T>,
    depth: int,
) -> (r: (Seq<(T, T)>, Seq<int>))
    requires
        0 <= depth <= curve::MAX_DEPTH,
        quad_is_exact(v, ops, tol),
        v(q.x0) % (finest(depth) * finest(depth)) == 0,
        v(q.y0) % (finest(depth) * finest(depth)) == 0,
        v(q.x1) % (finest(depth) * finest(depth)) == 0,
        v(q.y1) % (finest(depth) * finest(depth)) == 0,
        v(q.x2) % (finest(depth) * finest(depth)) == 0,
        v(q.y2) % (finest(depth) * finest(depth)) == 0,
    ensures
        follows_quad(v, tol, q, finest(depth), r.0, r.1),
        chords_between(ops.fix, r.0, ops.chords(q, depth)),
    decreases curve::MAX_DEPTH - depth,
{
    let n = finest(depth);
    lemma_finest(depth);
    let (a, b, c) = (v(q.x0), v(q.x1), v(q.x2));
    let (d, e, f) = (v(q.y0), v(q.y1), v(q.y2));
    let flat_x = (ops.flat)(q.x0, q.x1, q.x2);
    let flat_y = (ops.flat)(q.y0, q.y1, q.y2);
    lemma_whole_flat(a, b, c, n, tol);
    lemma_whole_flat(d, e, f, n, tol);
    if depth >= curve::MAX_DEPTH || (flat_x && flat_y) {
        let pts = seq![(q.x0, q.y0), (q.x2, q.y2)];
        let times = seq![0int, n];
        lemma_quad_ends(a, b, c, n);
        lemma_quad_ends(d, e, f, n);
        assert(ops.chords(q, depth).len() == 1);
        (pts, times)
    } else {
        let m = finest(depth + 1);
        lemma_finest(depth + 1);
        assert(n == 2 * m);
        assert(n * n == 4 * (m * m)) by (nonlinear_arith)
            requires
                n == 2 * m,
        ;
        assert(0 < m * m) by (nonlinear_arith)
            requires
                0 < m,
        ;
        lemma_quad_axis(v, ops.mid, q.x0, q.x1, q.x2, m * m);
        lemma_quad_axis(v, ops.mid, q.y0, q.y1, q.y2, m * m);
        let l = ops.left(q);
        let r = ops.right(q);
        let (pl, tl) = lemma_quad_follows(ops, v, tol, l, depth + 1);
        let (pr, tr) = lemma_quad_follows(ops, v, tol, r, depth + 1);
        let pts = pl.drop_last() + pr;
        let times = tl.drop_last() + tr.map_values(|t: int| t + m);
        let k = pl.len() - 1;
        assert(pl.last() == pr[0]);
        assert(tl.last() == m && tr[0] == 0);
        assert forall|i: int| 0 <= i < pts.len() implies on_quad(v, q, #[trigger] pts[i], times[i], n)
            by {
            if i < k {
                assert(on_quad(v, l, pl[i], tl[i], m));
                lemma_quad_left(a, b, c, v(l.x1), v(l.x2), tl[i], m);
                lemma_quad_left(d, e, f, v(l.y1), v(l.y2), tl[i], m);
                lemma_times_four(v(pts[i].0), m);
                lemma_times_four(v(pts[i].1), m);
            } else {
                let j = i - k;
                assert(on_quad(v, r, pr[j], tr[j], m));
                lemma_quad_right(a, b, c, v(r.x0), v(r.x1), tr[j], m);
                lemma_quad_right(d, e, f, v(r.y0), v(r.y1), tr[j], m);
                lemma_times_four(v(pts[i].0), m);
                lemma_times_four(v(pts[i].1), m);
            }
        }
        assert forall|i: int, j: int| 0 <= i && j == i + 1 && j < times.len() implies {
            let g = #[trigger] times[j] - #[trigger] times[i];
            &&& 0 < g
            &&& (part_is_flat(a, b, c, g, n, tol) && part_is_flat(d, e, f, g, n, tol)) || g == 1
            &&& g == n || !(part_is_flat(a, b, c, 2 * g, n, tol) && part_is_flat(
                d,
                e,
                f,
                2 * g,
                n,
                tol,
            ))
        } by {
            let g = times[j] - times[i];
            lemma_flat_half(a, b, c, v(l.x0), v(l.x1), v(l.x2), g, m, tol);
            lemma_flat_half(d, e, f, v(l.y0), v(l.y1), v(l.y2), g, m, tol);
            lemma_flat_half(a, b, c, v(l.x0), v(l.x1), v(l.x2), 2 * g, m, tol);
            lemma_flat_half(d, e, f, v(l.y0), v(l.y1), v(l.y2), 2 * g, m, tol);
            lemma_flat_half(a, b, c, v(r.x0), v(r.x1), v(r.x2), g, m, tol);
            lemma_flat_half(d, e, f, v(r.y0), v(r.y1), v(r.y2), g, m, tol);
            lemma_flat_half(a, b, c, v(r.x0), v(r.x1), v(r.x2), 2 * g, m, tol);
            lemma_flat_half(d, e, f, v(r.y0), v(r.y1), v(r.y2), 2 * g, m, tol);
            if i < k {
                assert(times[j] == tl[j]) by {
                    if j == k {
                        assert(times[j] == tr[0] + m);
                    }
                }
                assert(g == tl[j] - tl[i]);
            } else {
                assert(g == tr[j - k] - tr[i - k]);
            }
        }
        let cl = ops.chords(l, depth + 1);
        let cr = ops.chords(r, depth + 1);
        assert(ops.chords(q, depth) == cl + cr);
        assert forall|i: int, j: int| 0 <= i && j == i + 1 && j < pts.len() implies (cl + cr)[i] == (
            ((ops.fix)((#[trigger] pts[i]).0), (ops.fix)(pts[i].1)),
            ((ops.fix)((#[trigger] pts[j]).0), (ops.fix)(pts[j].1)),
        ) by {
            if i < k {
                assert(pts[j] == pl[j]);
                assert(pts[i] == pl[i]);
            } else {
                assert(pts[i] == pr[i - k] && pts[j] == pr[j - k]);
            }
        }
        assert(pts.last() == pr.last());
        assert(times.last() == tr.last() + m);
        assert(pts[0] == pl[0] && times[0] == tl[0]);
        (pts, times)
    }
}

/// Flatness of a whole curve.
proof fn lemma_whole_flat(a: int, b: int, c: int, n: int, tol: int)
    requires
        0 < n,
    ensures
        part_is_flat(a, b, c, n, n, tol) == (fixed::abs(a - 2 * b + c) <= tol),
{
    let s = fixed::abs(a - 2 * b + c);
    assert((s * (n * n) <= tol * (n * n)) == (s <= tol)) by (nonlinear_arith)
        requires
            0 < n,
    {
        assert(0 < n * n);
    }
}

/// The ends of a curve.
proof fn lemma_quad_ends(a: int, b: int, c: int, n: int)
    ensures
        quad_at(a, b, c, 0, n) == a * (n * n),
        quad_at(a, b, c, n, n) == c * (n * n),
{
    assert(n * n * a == a * (n * n)) by (nonlinear_arith);
    assert(n * n * c == c * (n * n)) by (nonlinear_arith);
    assert(2 * (0 * n) * b == 0 && 0 * 0 * c == 0) by (nonlinear_arith);
    assert(0 * 0 * a == 0 && 2 * (n * 0) * b == 0) by (nonlinear_arith);
}

proof fn lemma_times_four(x: int, m: int)
    ensures
        x * ((2 * m) * (2 * m)) == 4 * (x * (m * m)),
{
    assert(x * ((2 * m) * (2 * m)) == 4 * (x * (m * m))) by (nonlinear_arith);
}

/// A quadratic curve is drawn along itself: the sides that it adds to a path
/// run through points of the Bézier curve, from its first to its last. Each side
/// stands for a part of the curve that passes the flatness test along both axes,
/// or for one that cannot be halved any more; and no part is cut further than
/// that. Returns the points and their times.
pub proof fn law_quad_follows_curve<T>(
    o: Outline,
    sides: Seq<Side>,
    ops: QuadOps<T>,
    v: spec_fn(T) -> int,
    tol: int,
    q: Quad<T>,
) -> (r: (Seq<(T, T)>, Seq<int>))
    requires
        trace::traces(o.edges, sides),
        quad_is_exact(v, ops, tol),
        v(q.x0) % 0x1_0000_0000 == 0,
        v(q.y0) % 0x1_0000_0000 == 0,
        v(q.x1) % 0x1_0000_0000 == 0,
        v(q.y1) % 0x1_0000_0000 == 0,
        v(q.x2) % 0x1_0000_0000 == 0,
        v(q.y2) % 0x1_0000_0000 == 0,
    ensures
        follows_quad(v, tol, q, 65536, r.0, r.1),
        chords_between(ops.fix, r.0, ops.chords(q, 0)),
        ({
            let p = o.chords_to(ops.chords(q, 0), ops.chord(q).1);
            &&& trace::traces(p.edges, sides + ops.chords(q, 0))
            &&& p.current == ((ops.fix)(q.x2), (ops.fix)(q.y2))
            &&& p.start == o.start
        }),
{
    lemma_full_depth();
    trace::law_chords_add_sides(o, sides, ops.chords(q, 0), ops.chord(q).1);
    lemma_quad_follows(ops, v, tol, q, 0)
}

proof fn lemma_full_depth()
    ensures
        finest(0) == 65536,
        finest(0) * finest(0) == 0x1_0000_0000,
        finest(0) * finest(0) * finest(0) == 0x1_0000_0000_0000,
{
    reveal_with_fuel(finest, 17);
}

/// A flat part of a quadratic curve, from time `s / n` to time `e / n`, stays
/// within a quarter of the tolerance of its chord: at any time `u / n` between,
/// the curve is that close to the point of the chord at the same time.
pub proof fn law_quad_near_chord(a: int, b: int, c: int, n: int, s: int, e: int, u: int, tol: int)
    requires
        0 < n,
        s <= u <= e,
        part_is_flat(a, b, c, e - s, n, tol),
    ensures
        4 * fixed::abs(
            (e - s) * quad_at(a, b, c, u, n) - (e - u) * quad_at(a, b, c, s, n) - (u - s) * quad_at(
                a,
                b,
                c,
                e,
                n,
            ),
        ) <= (e - s) * (tol * (n * n)),
{
    lemma_quad_powers(a, b, c, u, n);
    lemma_quad_powers(a, b, c, s, n);
    lemma_quad_powers(a, b, c, e, n);
    let p = n * n * a;
    let d = b - a;
    let z = a - 2 * b + c;
    let x = u - s;
    let y = e - u;
    let k = 2 * n * d;
    assert(2 * (n * u) * d == k * u && 2 * (n * s) * d == k * s && 2 * (n * e) * d == k * e)
        by (nonlinear_arith)
        requires
            k == 2 * n * d,
    ;
    lemma_interpolate(p, k, z, s, e, u);
    let dev = (e - s) * (p + k * u + u * u * z) - (e - u) * (p + k * s + s * s * z) - (u - s) * (p
        + k * e + e * e * z);
    let g = e - s;
    let az = fixed::abs(z);
    assert(fixed::abs(dev) == g * (x * y) * az) by {
        let w = g * (x * y);
        assert(0 <= w) by (nonlinear_arith)
            requires
                w == g * (x * y),
                0 <= x,
                0 <= y,
                g == x + y,
        ;
        assert(0 <= w * az && (z >= 0 ==> w * z == w * az) && (z < 0 ==> w * z == -(w * az)))
            by (nonlinear_arith)
            requires
                0 <= w,
                0 <= az,
                z >= 0 ==> az == z,
                z < 0 ==> az == -z,
        ;
    }
    assert(4 * (x * y) <= g * g) by (nonlinear_arith)
        requires
            g == x + y,
    {
        assert((x + y) * (x + y) - 4 * (x * y) == (x - y) * (x - y));
    }
    assert(4 * (g * (x * y) * az) <= g * (tol * (n * n))) by (nonlinear_arith)
        requires
            4 * (x * y) <= g * g,
            az * (g * g) <= tol * (n * n),
            0 <= g,
            0 <= az,
    {
        assert(4 * (g * (x * y) * az) == g * (az * (4 * (x * y))));
        assert(az * (4 * (x * y)) <= az * (g * g));
        assert(g * (az * (4 * (x * y))) <= g * (az * (g * g)));
        assert(g * (az * (g * g)) <= g * (tol * (n * n)));
    }
}

/// How far a quadratic is from the line between two of its points.
proof fn lemma_interpolate(p: int, k: int, z: int, s: int, e: int, u: int)
    ensures
        (e - s) * (p + k * u + u * u * z) - (e - u) * (p + k * s + s * s * z) - (u - s) * (p + k * e
            + e * e * z) == -((e - s) * ((u - s) * (e - u)) * z),
{
    let x = u - s;
    let y = e - u;
    // Around `s`: the constant and linear parts cancel.
    let p2 = p + k * s + s * s * z;
    let k2 = k + 2 * s * z;
    assert(p + k * u + u * u * z == p2 + k2 * x + x * x * z) by (nonlinear_arith)
        requires
            u == s + x,
            p2 == p + k * s + s * s * z,
            k2 == k + 2 * s * z,
    ;
    let g = x + y;
    assert(p + k * e + e * e * z == p2 + k2 * g + g * g * z) by (nonlinear_arith)
        requires
            e == s + g,
            p2 == p + k * s + s * s * z,
            k2 == k + 2 * s * z,
    ;
    let w = g * x;
    assert(g * (p2 + k2 * x + x * x * z) == g * p2 + k2 * w + w * x * z) by (nonlinear_arith)
        requires
            w == g * x,
    ;
    assert(x * (p2 + k2 * g + g * g * z) == x * p2 + k2 * w + w * g * z) by (nonlinear_arith)
        requires
            w == g * x,
    ;
    assert(g * p2 == x * p2 + y * p2) by (nonlinear_arith)
        requires
            g == x + y,
    ;
    assert(w * g * z == w * x * z + w * y * z) by (nonlinear_arith)
        requires
            g == x + y,
    ;
    assert(w * y * z == g * (x * y) * z) by (nonlinear_arith)
        requires
            w == g * x,
    ;
}

/// A cubic curve is flat if three times each control point is within `tol` of
/// where it would trisect the chord.
pub open spec fn cubic_is_exact<T>(v: spec_fn(T) -> int, ops: CubicOps<T>, tol: int) -> bool {
    &&& exact_mid(v, ops.mid)
    &&& forall|a: T, b: T, c: T, d: T| #[trigger]
        (ops.flat)(a, b, c, d) == (fixed::abs(2 * v(a) - 3 * v(b) + v(d)) <= tol && fixed::abs(
            v(a) - 3 * v(c) + 2 * v(d),
        ) <= tol)
}

/// A point of a cubic curve at time `t / n`.
pub open spec fn on_cubic<T>(
    v: spec_fn(T) -> int,
    c: Cubic<T>,
    p: (T, T),
    t: int,
    n: int,
) -> bool {
    &&& v(p.0) * (n * n * n) == cubic_at(v(c.x0), v(c.x1), v(c.x2), v(c.x3), t, n)
    &&& v(p.1) * (n * n * n) == cubic_at(v(c.y0), v(c.y1), v(c.y2), v(c.y3), t, n)
}

/// `n` times a sixth of the second derivative of a cubic curve at time `t / n`.
pub open spec fn bend(a: int, b: int, c: int, d: int, t: int, n: int) -> int {
    (n - t) * (a - 2 * b + c) + t * (b - 2 * c + d)
}

/// The part of a cubic curve from time `s / n` to time `e / n` is flat along one
/// axis.
pub open spec fn span_is_flat(
    a: int,
    b: int,
    c: int,
    d: int,
    s: int,
    e: int,
    n: int,
    tol: int,
) -> bool {
    let p = bend(a, b, c, d, s, n);
    let q = bend(a, b, c, d, e, n);
    &&& fixed::abs(2 * p + q) * ((e - s) * (e - s)) <= tol * (n * n * n)
    &&& fixed::abs(p + 2 * q) * ((e - s) * (e - s)) <= tol * (n * n * n)
}

/// The part of a cubic curve from time `s / n` to time `e / n` is flat along
/// both axes.
pub open spec fn cubic_part_is_flat<T>(
    v: spec_fn(T) -> int,
    c: Cubic<T>,
    s: int,
    e: int,
    n: int,
    tol: int,
) -> bool {
    &&& span_is_flat(v(c.x0), v(c.x1), v(c.x2), v(c.x3), s, e, n, tol)
    &&& span_is_flat(v(c.y0), v(c.y1), v(c.y2), v(c.y3), s, e, n, tol)
}

/// The part from time `s / n` to time `e / n` is one half of a part that is not
/// flat.
pub open spec fn halves_a_bent_part<T>(
    v: spec_fn(T) -> int,
    c: Cubic<T>,
    s: int,
    e: int,
    n: int,
    tol: int,
) -> bool {
    let g = e - s;
    &&& n % (2 * g) == 0
    &&& {
        ||| s % (2 * g) == 0 && !cubic_part_is_flat(v, c, s, e + g, n, tol)
        ||| e % (2 * g) == 0 && !cubic_part_is_flat(v, c, s - g, e, n, tol)
    }
}

/// The chords run through points of the curve at the given times, from its
/// first to its last. Each chord stands for a part that is flat along both axes,
/// or as short as can be; and each part is the whole curve, or one half of a
/// part that is not flat.
pub open spec fn follows_cubic<T>(
    v: spec_fn(T) -> int,
    tol: int,
    c: Cubic<T>,
    n: int,
    pts: Seq<(T, T)>,
    times: Seq<int>,
) -> bool {
    &&& 2 <= pts.len() == times.len()
    &&& times[0] == 0
    &&& times.last() == n
    &&& pts[0] == (c.x0, c.y0)
    &&& pts.last() == (c.x3, c.y3)
    &&& forall|i: int| 0 <= i < pts.len() ==> on_cubic(v, c, #[trigger] pts[i], times[i], n)
    &&& forall|i: int, j: int|
        0 <= i && j == i + 1 && j < times.len() ==> {
            let s = #[trigger] times[i];
            let e = #[trigger] times[j];
            &&& s < e
            &&& cubic_part_is_flat(v, c, s, e, n, tol) || e - s == 1
            &&& e - s == n || halves_a_bent_part(v, c, s, e, n, tol)
        }
}

/// A cubic in powers of the time.
proof fn lemma_cubic_powers(a: int, b: int, c: int, d: int, t: int, n: int)
    ensures
        cubic_at(a, b, c, d, t, n) == n * n * n * a + 3 * (n * n * t) * (b - a) + 3 * (n * t * t) * (
        a - 2 * b + c) + t * t * t * (3 * b - a - 3 * c + d),
{
    let p = n * n * n;
    let q = n * n * t;
    let r = n * t * t;
    let s = t * t * t;
    assert((n - t) * (n - t) * (n - t) == p - 3 * q + 3 * r - s) by (nonlinear_arith)
        requires
            p == n * n * n,
            q == n * n * t,
            r == n * t * t,
            s == t * t * t,
    ;
    assert(t * (n - t) * (n - t) == q - 2 * r + s) by (nonlinear_arith)
        requires
            q == n * n * t,
            r == n * t * t,
            s == t * t * t,
    ;
    assert(t * t * (n - t) == r - s) by (nonlinear_arith)
        requires
            r == n * t * t,
            s == t * t * t,
    ;
    assert((p - 3 * q + 3 * r - s) * a == p * a - 3 * (q * a) + 3 * (r * a) - s * a)
        by (nonlinear_arith);
    assert(3 * (q - 2 * r + s) * b == 3 * (q * b) - 6 * (r * b) + 3 * (s * b)) by (nonlinear_arith);
    assert(3 * (r - s) * c == 3 * (r * c) - 3 * (s * c)) by (nonlinear_arith);
    assert(3 * q * (b - a) == 3 * (q * b) - 3 * (q * a)) by (nonlinear_arith);
    assert(3 * r * (a - 2 * b + c) == 3 * (r * a) - 6 * (r * b) + 3 * (r * c)) by (nonlinear_arith);
    assert(s * (3 * b - a - 3 * c + d) == 3 * (s * b) - s * a - 3 * (s * c) + s * d)
        by (nonlinear_arith);
}

/// From the other end of the curve.
proof fn lemma_cubic_mirror(a: int, b: int, c: int, d: int, t: int, n: int)
    ensures
        cubic_at(a, b, c, d, t, n) == cubic_at(d, c, b, a, n - t, n),
        bend(a, b, c, d, t, n) == bend(d, c, b, a, n - t, n),
{
    let u = n - t;
    assert(n - u == t);
    assert(t * u * u == u * u * t && u * t * t == t * t * u) by (nonlinear_arith);
}

/// The first half of a cubic curve is the curve at half the speed.
proof fn lemma_cubic_left(
    a: int,
    b: int,
    c: int,
    d: int,
    l1: int,
    l2: int,
    l3: int,
    t: int,
    m: int,
)
    requires
        2 * l1 == a + b,
        4 * l2 == a + 2 * b + c,
        8 * l3 == a + 3 * b + 3 * c + d,
    ensures
        8 * cubic_at(a, l1, l2, l3, t, m) == cubic_at(a, b, c, d, t, 2 * m),
        8 * bend(a, l1, l2, l3, t, m) == bend(a, b, c, d, t, 2 * m),
{
    lemma_cubic_powers(a, l1, l2, l3, t, m);
    lemma_cubic_powers(a, b, c, d, t, 2 * m);
    let x = l1 - a;
    let y = a - 2 * l1 + l2;
    let z = 3 * l1 - a - 3 * l2 + l3;
    let n = 2 * m;
    assert(b - a == 2 * x && a - 2 * b + c == 4 * y && 3 * b - a - 3 * c + d == 8 * z);
    assert(n * n * n * a == 8 * (m * m * m * a)) by (nonlinear_arith)
        requires
            n == 2 * m,
    ;
    assert(3 * (n * n * t) * (2 * x) == 8 * (3 * (m * m * t) * x)) by (nonlinear_arith)
        requires
            n == 2 * m,
    ;
    assert(3 * (n * t * t) * (4 * y) == 8 * (3 * (m * t * t) * y)) by (nonlinear_arith)
        requires
            n == 2 * m,
    ;
    assert(t * t * t * (8 * z) == 8 * (t * t * t * z)) by (nonlinear_arith);
    let p = a - 2 * b + c;
    let q = b - 2 * c + d;
    let w = l1 - 2 * l2 + l3;
    assert(8 * w == p + q);
    assert(8 * ((m - t) * y + t * w) == (n - t) * p + t * q) by (nonlinear_arith)
        requires
            n == 2 * m,
            p == 4 * y,
            8 * w == p + q,
    {
        assert(8 * ((m - t) * y) == 2 * ((m - t) * (4 * y)));
        assert(8 * (t * w) == t * (8 * w));
    }
}

/// The second half of a cubic curve.
proof fn lemma_cubic_right(
    a: int,
    b: int,
    c: int,
    d: int,
    r0: int,
    r1: int,
    r2: int,
    t: int,
    m: int,
)
    requires
        2 * r2 == c + d,
        4 * r1 == b + 2 * c + d,
        8 * r0 == a + 3 * b + 3 * c + d,
    ensures
        8 * cubic_at(r0, r1, r2, d, t, m) == cubic_at(a, b, c, d, t + m, 2 * m),
        8 * bend(r0, r1, r2, d, t, m) == bend(a, b, c, d, t + m, 2 * m),
{
    lemma_cubic_mirror(r0, r1, r2, d, t, m);
    lemma_cubic_left(d, c, b, a, r2, r1, r0, m - t, m);
    lemma_cubic_mirror(a, b, c, d, t + m, 2 * m);
    assert(2 * m - (t + m) == m - t);
}

/// Flatness of a part of the first half.
proof fn lemma_left_flat(
    a: int,
    b: int,
    c: int,
    d: int,
    l1: int,
    l2: int,
    l3: int,
    s: int,
    e: int,
    m: int,
    tol: int,
)
    requires
        2 * l1 == a + b,
        4 * l2 == a + 2 * b + c,
        8 * l3 == a + 3 * b + 3 * c + d,
    ensures
        span_is_flat(a, l1, l2, l3, s, e, m, tol) == span_is_flat(a, b, c, d, s, e, 2 * m, tol),
{
    lemma_cubic_left(a, b, c, d, l1, l2, l3, s, m);
    lemma_cubic_left(a, b, c, d, l1, l2, l3, e, m);
    lemma_eightfold(
        bend(a, l1, l2, l3, s, m),
        bend(a, l1, l2, l3, e, m),
        e - s,
        m,
        tol,
    );
}

/// Flatness of a part of the second half.
proof fn lemma_right_flat(
    a: int,
    b: int,
    c: int,
    d: int,
    r0: int,
    r1: int,
    r2: int,
    s: int,
    e: int,
    m: int,
    tol: int,
)
    requires
        2 * r2 == c + d,
        4 * r1 == b + 2 * c + d,
        8 * r0 == a + 3 * b + 3 * c + d,
    ensures
        span_is_flat(r0, r1, r2, d, s, e, m, tol) == span_is_flat(
            a,
            b,
            c,
            d,
            s + m,
            e + m,
            2 * m,
            tol,
        ),
{
    lemma_cubic_right(a, b, c, d, r0, r1, r2, s, m);
    lemma_cubic_right(a, b, c, d, r0, r1, r2, e, m);
    assert((e + m) - (s + m) == e - s);
    lemma_eightfold(
        bend(r0, r1, r2, d, s, m),
        bend(r0, r1, r2, d, e, m),
        e - s,
        m,
        tol,
    );
}

/// The flatness bounds of a half, eight times over.
proof fn lemma_eightfold(p: int, q: int, g: int, m: int, tol: int)
    ensures
        (fixed::abs(2 * p + q) * (g * g) <= tol * (m * m * m)) == (fixed::abs(2 * (8 * p) + 8 * q)
            * (g * g) <= tol * ((2 * m) * (2 * m) * (2 * m))),
        (fixed::abs(p + 2 * q) * (g * g) <= tol * (m * m * m)) == (fixed::abs(8 * p + 2 * (8 * q))
            * (g * g) <= tol * ((2 * m) * (2 * m) * (2 * m))),
{
    let x = fixed::abs(2 * p + q);
    let y = fixed::abs(p + 2 * q);
    assert(fixed::abs(2 * (8 * p) + 8 * q) == 8 * x);
    assert(fixed::abs(8 * p + 2 * (8 * q)) == 8 * y);
    assert((8 * x) * (g * g) == 8 * (x * (g * g))) by (nonlinear_arith);
    assert((8 * y) * (g * g) == 8 * (y * (g * g))) by (nonlinear_arith);
    assert(tol * ((2 * m) * (2 * m) * (2 * m)) == 8 * (tol * (m * m * m))) by (nonlinear_arith);
}

/// The control points of both halves, along one axis.
proof fn lemma_cubic_axis<T>(
    v: spec_fn(T) -> int,
    mid: spec_fn(T, T) -> T,
    a: T,
    b: T,
    c: T,
    d: T,
    m: int,
)
    requires
        exact_mid(v, mid),
        0 < m,
        v(a) % (8 * m) == 0,
        v(b) % (8 * m) == 0,
        v(c) % (8 * m) == 0,
        v(d) % (8 * m) == 0,
    ensures
        ({
            let ab = mid(a, b);
            let bc = mid(b, c);
            let cd = mid(c, d);
            let abc = mid(ab, bc);
            let bcd = mid(bc, cd);
            let all = mid(abc, bcd);
            &&& 2 * v(ab) == v(a) + v(b)
            &&& 4 * v(abc) == v(a) + 2 * v(b) + v(c)
            &&& 8 * v(all) == v(a) + 3 * v(b) + 3 * v(c) + v(d)
            &&& 4 * v(bcd) == v(b) + 2 * v(c) + v(d)
            &&& 2 * v(cd) == v(c) + v(d)
            &&& v(a) % m == 0
            &&& v(ab) % m == 0
            &&& v(abc) % m == 0
            &&& v(all) % m == 0
            &&& v(bcd) % m == 0
            &&& v(cd) % m == 0
            &&& v(d) % m == 0
        }),
{
    let ab = mid(a, b);
    let bc = mid(b, c);
    let cd = mid(c, d);
    let abc = mid(ab, bc);
    let bcd = mid(bc, cd);
    let all = mid(abc, bcd);
    assert(2 * (4 * m) == 8 * m && 2 * (2 * m) == 4 * m);
    lemma_even(v(a), 4 * m);
    lemma_even(v(b), 4 * m);
    lemma_even(v(c), 4 * m);
    lemma_even(v(d), 4 * m);
    lemma_half(v(a), v(b), v(ab), 4 * m);
    lemma_half(v(b), v(c), v(bc), 4 * m);
    lemma_half(v(c), v(d), v(cd), 4 * m);
    lemma_even(v(ab), 2 * m);
    lemma_even(v(bc), 2 * m);
    lemma_even(v(cd), 2 * m);
    lemma_half(v(ab), v(bc), v(abc), 2 * m);
    lemma_half(v(bc), v(cd), v(bcd), 2 * m);
    lemma_even(v(abc), m);
    lemma_even(v(bcd), m);
    lemma_half(v(abc), v(bcd), v(all), m);
    lemma_even(v(ab), m);
    lemma_even(v(cd), m);
    lemma_even(v(a), 2 * m);
    lemma_even(v(a), m);
    lemma_even(v(d), 2 * m);
    lemma_even(v(d), m);
}

/// Flatness of a whole curve.
proof fn lemma_whole_cubic_flat(a: int, b: int, c: int, d: int, n: int, tol: int)
    requires
        0 < n,
    ensures
        span_is_flat(a, b, c, d, 0, n, n, tol) == (fixed::abs(2 * a - 3 * b + d) <= tol
            && fixed::abs(a - 3 * c + 2 * d) <= tol),
{
    let p = a - 2 * b + c;
    let q = b - 2 * c + d;
    assert((n - 0) * p + 0 * q == n * p) by (nonlinear_arith);
    assert((n - n) * p + n * q == n * q) by (nonlinear_arith);
    let x = 2 * a - 3 * b + d;
    let y = a - 3 * c + 2 * d;
    assert(2 * (n * p) + n * q == n * x) by (nonlinear_arith)
        requires
            2 * p + q == x,
    ;
    assert(n * p + 2 * (n * q) == n * y) by (nonlinear_arith)
        requires
            p + 2 * q == y,
    ;
    lemma_whole_bound(x, n, tol);
    lemma_whole_bound(y, n, tol);
}

proof fn lemma_whole_bound(x: int, n: int, tol: int)
    requires
        0 < n,
    ensures
        (fixed::abs(n * x) * (n * n) <= tol * (n * n * n)) == (fixed::abs(x) <= tol),
{
    let ax = fixed::abs(x);
    assert(fixed::abs(n * x) == n * ax) by {
        assert(x >= 0 ==> n * x >= 0 && n * x == n * ax) by (nonlinear_arith)
            requires
                0 < n,
                x >= 0 ==> ax == x,
        ;
        assert(x < 0 ==> n * x < 0 && -(n * x) == n * ax) by (nonlinear_arith)
            requires
                0 < n,
                x < 0 ==> ax == -x,
        ;
    }
    let w = n * n * n;
    assert((n * ax) * (n * n) == ax * w) by (nonlinear_arith)
        requires
            w == n * n * n,
    ;
    assert(0 < w) by (nonlinear_arith)
        requires
            w == n * n * n,
            0 < n,
    {
        assert(0 < n * n);
    }
    assert((ax * w <= tol * w) == (ax <= tol)) by (nonlinear_arith)
        requires
            0 < w,
    ;
}

/// The ends of a curve.
proof fn lemma_cubic_ends(a: int, b: int, c: int, d: int, n: int)
    ensures
        cubic_at(a, b, c, d, 0, n) == a * (n * n * n),
        cubic_at(a, b, c, d, n, n) == d * (n * n * n),
{
    assert(n * n * n * a == a * (n * n * n)) by (nonlinear_arith);
    assert(n * n * n * d == d * (n * n * n)) by (nonlinear_arith);
    assert(3 * (0 * n * n) * b == 0 && 3 * (0 * 0 * n) * c == 0 && 0 * 0 * 0 * d == 0)
        by (nonlinear_arith);
    assert(0 * 0 * 0 * a == 0 && 3 * (n * 0 * 0) * b == 0 && 3 * (n * n * 0) * c == 0)
        by (nonlinear_arith);
}

proof fn lemma_times_eight(x: int, m: int)
    ensures
        x * ((2 * m) * (2 * m) * (2 * m)) == 8 * (x * (m * m * m)),
{
    assert(x * ((2 * m) * (2 * m) * (2 * m)) == 8 * (x * (m * m * m))) by (nonlinear_arith);
}

/// Multiples of a number add up to multiples of it.
proof fn lemma_add_multiples(a: int, b: int, g: int)
    requires
        0 < g,
        b % g == 0,
    ensures
        a % g == 0 ==> (a + b) % g == 0,
{
    if a % g == 0 {
        vstd::arithmetic::div_mod::lemma_fundamental_div_mod(a, g);
        vstd::arithmetic::div_mod::lemma_fundamental_div_mod(b, g);
        let p = a / g;
        let q = b / g;
        assert(a + b == (p + q) * g) by (nonlinear_arith)
            requires
                a == g * p,
                b == g * q,
        ;
        vstd::arithmetic::div_mod::lemma_mod_multiples_basic(p + q, g);
    }
}

/// A part of the first half is a part of the whole.
proof fn lemma_left_part<T>(
    ops: CubicOps<T>,
    v: spec_fn(T) -> int,
    tol: int,
    c: Cubic<T>,
    s: int,
    e: int,
    m: int,
)
    requires
        exact_mid(v, ops.mid),
        0 < m,
        s < e,
        v(c.x0) % (8 * (m * m * m)) == 0,
        v(c.y0) % (8 * (m * m * m)) == 0,
        v(c.x1) % (8 * (m * m * m)) == 0,
        v(c.y1) % (8 * (m * m * m)) == 0,
        v(c.x2) % (8 * (m * m * m)) == 0,
        v(c.y2) % (8 * (m * m * m)) == 0,
        v(c.x3) % (8 * (m * m * m)) == 0,
        v(c.y3) % (8 * (m * m * m)) == 0,
    ensures
        cubic_part_is_flat(v, ops.left(c), s, e, m, tol) == cubic_part_is_flat(
            v,
            c,
            s,
            e,
            2 * m,
            tol,
        ),
        halves_a_bent_part(v, ops.left(c), s, e, m, tol) ==> halves_a_bent_part(
            v,
            c,
            s,
            e,
            2 * m,
            tol,
        ),
{
    lemma_cube(m);
    lemma_cubic_axis(v, ops.mid, c.x0, c.x1, c.x2, c.x3, m * m * m);
    lemma_cubic_axis(v, ops.mid, c.y0, c.y1, c.y2, c.y3, m * m * m);
    let l = ops.left(c);
    let g = e - s;
    let (xa, xb, xc, xd) = (v(c.x0), v(c.x1), v(c.x2), v(c.x3));
    let (ya, yb, yc, yd) = (v(c.y0), v(c.y1), v(c.y2), v(c.y3));
    lemma_left_flat(xa, xb, xc, xd, v(l.x1), v(l.x2), v(l.x3), s, e, m, tol);
    lemma_left_flat(ya, yb, yc, yd, v(l.y1), v(l.y2), v(l.y3), s, e, m, tol);
    lemma_left_flat(xa, xb, xc, xd, v(l.x1), v(l.x2), v(l.x3), s, e + g, m, tol);
    lemma_left_flat(ya, yb, yc, yd, v(l.y1), v(l.y2), v(l.y3), s, e + g, m, tol);
    lemma_left_flat(xa, xb, xc, xd, v(l.x1), v(l.x2), v(l.x3), s - g, e, m, tol);
    lemma_left_flat(ya, yb, yc, yd, v(l.y1), v(l.y2), v(l.y3), s - g, e, m, tol);
    if m % (2 * g) == 0 {
        lemma_add_multiples(m, m, 2 * g);
        assert(m + m == 2 * m);
    }
}

/// A part of the second half is a part of the whole.
proof fn lemma_right_part<T>(
    ops: CubicOps<T>,
    v: spec_fn(T) -> int,
    tol: int,
    c: Cubic<T>,
    s: int,
    e: int,
    m: int,
)
    requires
        exact_mid(v, ops.mid),
        0 < m,
        s < e,
        v(c.x0) % (8 * (m * m * m)) == 0,
        v(c.y0) % (8 * (m * m * m)) == 0,
        v(c.x1) % (8 * (m * m * m)) == 0,
        v(c.y1) % (8 * (m * m * m)) == 0,
        v(c.x2) % (8 * (m * m * m)) == 0,
        v(c.y2) % (8 * (m * m * m)) == 0,
        v(c.x3) % (8 * (m * m * m)) == 0,
        v(c.y3) % (8 * (m * m * m)) == 0,
    ensures
        cubic_part_is_flat(v, ops.right(c), s, e, m, tol) == cubic_part_is_flat(
            v,
            c,
            s + m,
            e + m,
            2 * m,
            tol,
        ),
        halves_a_bent_part(v, ops.right(c), s, e, m, tol) ==> halves_a_bent_part(
            v,
            c,
            s + m,
            e + m,
            2 * m,
            tol,
        ),
{
    lemma_cube(m);
    lemma_cubic_axis(v, ops.mid, c.x0, c.x1, c.x2, c.x3, m * m * m);
    lemma_cubic_axis(v, ops.mid, c.y0, c.y1, c.y2, c.y3, m * m * m);
    let r = ops.right(c);
    let g = e - s;
    let (xa, xb, xc, xd) = (v(c.x0), v(c.x1), v(c.x2), v(c.x3));
    let (ya, yb, yc, yd) = (v(c.y0), v(c.y1), v(c.y2), v(c.y3));
    lemma_right_flat(xa, xb, xc, xd, v(r.x0), v(r.x1), v(r.x2), s, e, m, tol);
    lemma_right_flat(ya, yb, yc, yd, v(r.y0), v(r.y1), v(r.y2), s, e, m, tol);
    lemma_right_flat(xa, xb, xc, xd, v(r.x0), v(r.x1), v(r.x2), s, e + g, m, tol);
    lemma_right_flat(ya, yb, yc, yd, v(r.y0), v(r.y1), v(r.y2), s, e + g, m, tol);
    lemma_right_flat(xa, xb, xc, xd, v(r.x0), v(r.x1), v(r.x2), s - g, e, m, tol);
    lemma_right_flat(ya, yb, yc, yd, v(r.y0), v(r.y1), v(r.y2), s - g, e, m, tol);
    assert((e + m) - (s + m) == g);
    assert((e + m) + g == (e + g) + m && (s + m) - g == (s - g) + m);
    if m % (2 * g) == 0 {
        lemma_add_multiples(m, m, 2 * g);
        assert(m + m == 2 * m);
        lemma_add_multiples(s, m, 2 * g);
        lemma_add_multiples(e, m, 2 * g);
    }
}

proof fn lemma_cube(m: int)
    requires
        0 < m,
    ensures
        0 < m * m * m,
{
    assert(0 < m * m * m) by (nonlinear_arith)
        requires
            0 < m,
    {
        assert(0 < m * m);
    }
}

/// The points and times of the chords of a cubic curve that has been halved
/// `depth` times already.
proof fn lemma_cubic_follows<T>(
    ops: CubicOps<T>,
    v: spec_fn(T) -> int,
    tol: int,
    c: Cubic<T>,
    depth: int,
) -> (r: (Seq<(T, T)>, Seq<int>))
    requires
        0 <= depth <= curve::MAX_DEPTH,
        cubic_is_exact(v, ops, tol),
        v(c.x0) % (finest(depth) * finest(depth) * finest(depth)) == 0,
        v(c.y0) % (finest(depth) * finest(depth) * finest(depth)) == 0,
        v(c.x1) % (finest(depth) * finest(depth) * finest(depth)) == 0,
        v(c.y1) % (finest(depth) * finest(depth) * finest(depth)) == 0,
        v(c.x2) % (finest(depth) * finest(depth) * finest(depth)) == 0,
        v(c.y2) % (finest(depth) * finest(depth) * finest(depth)) == 0,
        v(c.x3) % (finest(depth) * finest(depth) * finest(depth)) == 0,
        v(c.y3) % (finest(depth) * finest(depth) * finest(depth)) == 0,
    ensures
        follows_cubic(v, tol, c, finest(depth), r.0, r.1),
        chords_between(ops.fix, r.0, ops.chords(c, depth)),
    decreases curve::MAX_DEPTH - depth,
{
    let n = finest(depth);
    lemma_finest(depth);
    let (xa, xb, xc, xd) = (v(c.x0), v(c.x1), v(c.x2), v(c.x3));
    let (ya, yb, yc, yd) = (v(c.y0), v(c.y1), v(c.y2), v(c.y3));
    let flat_x = (ops.flat)(c.x0, c.x1, c.x2, c.x3);
    let flat_y = (ops.flat)(c.y0, c.y1, c.y2, c.y3);
    lemma_whole_cubic_flat(xa, xb, xc, xd, n, tol);
    lemma_whole_cubic_flat(ya, yb, yc, yd, n, tol);
    assert(cubic_part_is_flat(v, c, 0, n, n, tol) == (flat_x && flat_y));
    if depth >= curve::MAX_DEPTH || (flat_x && flat_y) {
        let pts = seq![(c.x0, c.y0), (c.x3, c.y3)];
        let times = seq![0int, n];
        lemma_cubic_ends(xa, xb, xc, xd, n);
        lemma_cubic_ends(ya, yb, yc, yd, n);
        assert(ops.chords(c, depth).len() == 1);
        (pts, times)
    } else {
        let m = finest(depth + 1);
        lemma_finest(depth + 1);
        lemma_cube(m);
        assert(n == 2 * m);
        assert(n * n * n == 8 * (m * m * m)) by (nonlinear_arith)
            requires
                n == 2 * m,
        ;
        lemma_cubic_axis(v, ops.mid, c.x0, c.x1, c.x2, c.x3, m * m * m);
        lemma_cubic_axis(v, ops.mid, c.y0, c.y1, c.y2, c.y3, m * m * m);
        let l = ops.left(c);
        let r = ops.right(c);
        let (pl, tl) = lemma_cubic_follows(ops, v, tol, l, depth + 1);
        let (pr, tr) = lemma_cubic_follows(ops, v, tol, r, depth + 1);
        let pts = pl.drop_last() + pr;
        let times = tl.drop_last() + tr.map_values(|t: int| t + m);
        let k = pl.len() - 1;
        assert(pl.last() == pr[0]);
        assert(tl.last() == m && tr[0] == 0);
        assert forall|i: int| 0 <= i < pts.len() implies on_cubic(
            v,
            c,
            #[trigger] pts[i],
            times[i],
            n,
        ) by {
            lemma_times_eight(v(pts[i].0), m);
            lemma_times_eight(v(pts[i].1), m);
            if i < k {
                assert(on_cubic(v, l, pl[i], tl[i], m));
                lemma_cubic_left(xa, xb, xc, xd, v(l.x1), v(l.x2), v(l.x3), tl[i], m);
                lemma_cubic_left(ya, yb, yc, yd, v(l.y1), v(l.y2), v(l.y3), tl[i], m);
            } else {
                let j = i - k;
                assert(on_cubic(v, r, pr[j], tr[j], m));
                lemma_cubic_right(xa, xb, xc, xd, v(r.x0), v(r.x1), v(r.x2), tr[j], m);
                lemma_cubic_right(ya, yb, yc, yd, v(r.y0), v(r.y1), v(r.y2), tr[j], m);
            }
        }
        assert forall|i: int, j: int| 0 <= i && j == i + 1 && j < times.len() implies {
            let s = #[trigger] times[i];
            let e = #[trigger] times[j];
            &&& s < e
            &&& cubic_part_is_flat(v, c, s, e, n, tol) || e - s == 1
            &&& e - s == n || halves_a_bent_part(v, c, s, e, n, tol)
        } by {
            let s = times[i];
            let e = times[j];
            if i < k {
                assert(times[j] == tl[j]) by {
                    if j == k {
                        assert(times[j] == tr[0] + m);
                    }
                }
                assert(s == tl[i] && e == tl[j]);
                lemma_left_part(ops, v, tol, c, s, e, m);
                if e - s == m {
                    lemma_outer_part(tl, i, j, m);
                    assert(n % (2 * m) == 0) by {
                        vstd::arithmetic::div_mod::lemma_mod_self_0(n);
                    }
                    assert(0int % (2 * m) == 0);
                    assert(halves_a_bent_part(v, c, s, e, n, tol));
                }
            } else {
                let s1 = tr[i - k];
                let e1 = tr[j - k];
                assert(s == s1 + m && e == e1 + m);
                lemma_right_part(ops, v, tol, c, s1, e1, m);
                if e1 - s1 == m {
                    lemma_outer_part(tr, i - k, j - k, m);
                    assert(n % (2 * m) == 0) by {
                        vstd::arithmetic::div_mod::lemma_mod_self_0(n);
                    }
                    assert(halves_a_bent_part(v, c, s, e, n, tol));
                }
            }
        }
        let cl = ops.chords(l, depth + 1);
        let cr = ops.chords(r, depth + 1);
        assert(ops.chords(c, depth) == cl + cr);
        assert forall|i: int, j: int| 0 <= i && j == i + 1 && j < pts.len() implies (cl + cr)[i] == (
            ((ops.fix)((#[trigger] pts[i]).0), (ops.fix)(pts[i].1)),
            ((ops.fix)((#[trigger] pts[j]).0), (ops.fix)(pts[j].1)),
        ) by {
            if i < k {
                assert(pts[j] == pl[j]);
                assert(pts[i] == pl[i]);
            } else {
                assert(pts[i] == pr[i - k] && pts[j] == pr[j - k]);
            }
        }
        assert(pts.last() == pr.last());
        assert(times.last() == tr.last() + m);
        assert(pts[0] == pl[0] && times[0] == tl[0]);
        (pts, times)
    }
}

/// Increasing times from 0 to `m` that have a gap of `m` have no other.
proof fn lemma_outer_part(times: Seq<int>, i: int, j: int, m: int)
    requires
        0 <= i,
        j == i + 1,
        j < times.len(),
        times[0] == 0,
        times.last() == m,
        times[j] - times[i] == m,
        forall|a: int, b: int|
            0 <= a && b == a + 1 && b < times.len() ==> #[trigger] times[a] < #[trigger] times[b],
    ensures
        times[i] == 0,
        times[j] == m,
{
    lemma_rising(times, 0, i);
    lemma_rising(times, j, times.len() - 1);
}

proof fn lemma_rising(times: Seq<int>, a: int, b: int)
    requires
        0 <= a <= b < times.len(),
        forall|x: int, y: int|
            0 <= x && y == x + 1 && y < times.len() ==> #[trigger] times[x] < #[trigger] times[y],
    ensures
        times[a] <= times[b],
    decreases b - a,
{
    if a < b {
        lemma_rising(times, a, b - 1);
        assert(times[b - 1] < times[b]);
    }
}

/// A cubic curve is drawn along itself: the sides that it adds to a path run
/// through points of the Bézier curve, from its first to its last. Each side
/// stands for a part of the curve that passes the flatness test along both axes,
/// or for one that cannot be halved any more; and no part is cut further than
/// that. Returns the points and their times.
pub proof fn law_cubic_follows_curve<T>(
    o: Outline,
    sides: Seq<Side>,
    ops: CubicOps<T>,
    v: spec_fn(T) -> int,
    tol: int,
    c: Cubic<T>,
) -> (r: (Seq<(T, T)>, Seq<int>))
    requires
        trace::traces(o.edges, sides),
        cubic_is_exact(v, ops, tol),
        v(c.x0) % 0x1_0000_0000_0000 == 0,
        v(c.y0) % 0x1_0000_0000_0000 == 0,
        v(c.x1) % 0x1_0000_0000_0000 == 0,
        v(c.y1) % 0x1_0000_0000_0000 == 0,
        v(c.x2) % 0x1_0000_0000_0000 == 0,
        v(c.y2) % 0x1_0000_0000_0000 == 0,
        v(c.x3) % 0x1_0000_0000_0000 == 0,
        v(c.y3) % 0x1_0000_0000_0000 == 0,
    ensures
        follows_cubic(v, tol, c, 65536, r.0, r.1),
        chords_between(ops.fix, r.0, ops.chords(c, 0)),
        ({
            let p = o.chords_to(ops.chords(c, 0), ops.chord(c).1);
            &&& trace::traces(p.edges, sides + ops.chords(c, 0))
            &&& p.current == ((ops.fix)(c.x3), (ops.fix)(c.y3))
            &&& p.start == o.start
        }),
{
    lemma_full_depth();
    trace::law_chords_add_sides(o, sides, ops.chords(c, 0), ops.chord(c).1);
    lemma_cubic_follows(ops, v, tol, c, 0)
}

/// A cubic around one of its points.
proof fn lemma_cubic_shift(a: int, b: int, c: int, d: int, s: int, n: int) -> (k: int)
    ensures
        forall|x: int| #[trigger]
            cubic_at(a, b, c, d, s + x, n) == cubic_at(a, b, c, d, s, n) + k * x + 3 * bend(
                a,
                b,
                c,
                d,
                s,
                n,
            ) * (x * x) + (3 * b - a - 3 * c + d) * (x * x * x),
{
    let p1 = b - a;
    let p2 = a - 2 * b + c;
    let p3 = 3 * b - a - 3 * c + d;
    let k = 3 * (n * n) * p1 + 6 * (n * s) * p2 + 3 * (s * s) * p3;
    let f = bend(a, b, c, d, s, n);
    assert(f == n * p2 + s * p3) by {
        let q = b - 2 * c + d;
        assert((n - s) * p2 + s * q == n * p2 + s * p3) by (nonlinear_arith)
            requires
                q == p2 + p3,
        ;
    }
    assert forall|x: int| #[trigger]
        cubic_at(a, b, c, d, s + x, n) == cubic_at(a, b, c, d, s, n) + k * x + 3 * f * (x * x) + p3
            * (x * x * x) by {
        let t = s + x;
        lemma_cubic_powers(a, b, c, d, t, n);
        lemma_cubic_powers(a, b, c, d, s, n);
        assert(3 * (n * n * t) * p1 == 3 * (n * n * s) * p1 + 3 * (n * n) * p1 * x)
            by (nonlinear_arith)
            requires
                t == s + x,
        ;
        assert(t * t == s * s + 2 * (s * x) + x * x) by (nonlinear_arith)
            requires
                t == s + x,
        ;
        let tt = t * t;
        let ss = s * s;
        let sx = s * x;
        let xx = x * x;
        assert(n * t * t == n * tt && n * s * s == n * ss) by (nonlinear_arith)
            requires
                tt == t * t,
                ss == s * s,
        ;
        assert(3 * (n * tt) * p2 == 3 * (n * ss) * p2 + 6 * (n * sx) * p2 + 3 * (n * xx) * p2)
            by (nonlinear_arith)
            requires
                tt == ss + 2 * sx + xx,
        ;
        assert(6 * (n * sx) * p2 == 6 * (n * s) * p2 * x) by (nonlinear_arith)
            requires
                sx == s * x,
        ;
        assert(t * t * t == s * s * s + 3 * (ss * x) + 3 * (s * xx) + x * x * x) by (nonlinear_arith)
            requires
                t == s + x,
                ss == s * s,
                xx == x * x,
        ;
        let ttt = t * t * t;
        let sss = s * s * s;
        let xxx = x * x * x;
        assert(ttt * p3 == sss * p3 + 3 * (ss * x) * p3 + 3 * (s * xx) * p3 + xxx * p3)
            by (nonlinear_arith)
            requires
                ttt == sss + 3 * (ss * x) + 3 * (s * xx) + xxx,
        ;
        let k1 = 3 * (n * n) * p1;
        let k2 = 6 * (n * s) * p2;
        let k3 = 3 * ss * p3;
        assert(k * x == k1 * x + k2 * x + k3 * x) by (nonlinear_arith)
            requires
                k == k1 + k2 + k3,
        ;
        assert(k3 * x == 3 * (ss * x) * p3) by (nonlinear_arith)
            requires
                k3 == 3 * ss * p3,
        ;
        assert(3 * f * xx == 3 * (n * xx) * p2 + 3 * (s * xx) * p3) by (nonlinear_arith)
            requires
                f == n * p2 + s * p3,
        ;
        assert(xxx * p3 == p3 * xxx) by (nonlinear_arith);
    }
    k
}

/// How far a cubic is from the line between two of its points.
proof fn lemma_cubic_deviation(a: int, b: int, c: int, d: int, n: int, s: int, e: int, u: int)
    ensures
        ({
            let x = u - s;
            let y = e - u;
            let p = bend(a, b, c, d, s, n);
            let q = bend(a, b, c, d, e, n);
            (e - s) * cubic_at(a, b, c, d, u, n) - y * cubic_at(a, b, c, d, s, n) - x * cubic_at(
                a,
                b,
                c,
                d,
                e,
                n,
            ) == -((x * y) * (y * (2 * p + q) + x * (p + 2 * q)))
        }),
{
    let x = u - s;
    let y = e - u;
    let g = e - s;
    let p = bend(a, b, c, d, s, n);
    let q = bend(a, b, c, d, e, n);
    let p3 = 3 * b - a - 3 * c + d;
    let k = lemma_cubic_shift(a, b, c, d, s, n);
    let q0 = cubic_at(a, b, c, d, s, n);
    assert(s + x == u && s + g == e);
    let qu = cubic_at(a, b, c, d, s + x, n);
    let qe = cubic_at(a, b, c, d, s + g, n);
    assert(q == p + g * p3) by {
        let m = a - 2 * b + c;
        let r = b - 2 * c + d;
        assert((n - e) * m + e * r == (n - s) * m + s * r + g * p3) by (nonlinear_arith)
            requires
                r == m + p3,
                e == s + g,
        ;
    }
    let f = 3 * p;
    // g Q(u) - y Q(s) - x Q(e), term by term.
    assert(g * q0 == x * q0 + y * q0) by (nonlinear_arith)
        requires
            g == x + y,
    ;
    let w = g * x;
    let z = w * y;
    assert(g * (q0 + k * x + f * (x * x) + p3 * (x * x * x)) == g * q0 + k * w + f * (w * x) + p3 * (w
        * (x * x))) by (nonlinear_arith)
        requires
            w == g * x,
    {
        assert(g * (k * x) == k * (g * x));
        assert(g * (f * (x * x)) == f * ((g * x) * x));
        assert(g * (p3 * (x * x * x)) == p3 * ((g * x) * (x * x)));
    }
    assert(x * (q0 + k * g + f * (g * g) + p3 * (g * g * g)) == x * q0 + k * w + f * (w * g) + p3 * (w
        * (g * g))) by (nonlinear_arith)
        requires
            w == g * x,
    {
        assert(x * (k * g) == k * (g * x));
        assert(x * (f * (g * g)) == f * ((g * x) * g));
        assert(x * (p3 * (g * g * g)) == p3 * ((g * x) * (g * g)));
    }
    assert(w * g == w * x + z) by (nonlinear_arith)
        requires
            g == x + y,
            z == w * y,
    ;
    assert(f * (w * g) == f * (w * x) + f * z) by (nonlinear_arith)
        requires
            w * g == w * x + z,
    ;
    assert(w * (g * g) == w * (x * x) + z * (x + g)) by (nonlinear_arith)
        requires
            g == x + y,
            z == w * y,
    {
        assert(g * g - x * x == y * (x + g));
        assert(w * (y * (x + g)) == (w * y) * (x + g));
    }
    let v = z * (x + g);
    assert(p3 * (w * (g * g)) == p3 * (w * (x * x)) + p3 * v) by (nonlinear_arith)
        requires
            w * (g * g) == w * (x * x) + v,
    ;
    // The deviation is -(f z + p3 v).
    let xy = x * y;
    assert(z == g * xy) by (nonlinear_arith)
        requires
            z == w * y,
            w == g * x,
            xy == x * y,
    ;
    let gp = g * p3;
    let t = y * (2 * p + q) + x * (p + 2 * q);
    assert(t == g * f + gp * (x + g)) by (nonlinear_arith)
        requires
            q == p + gp,
            g == x + y,
            f == 3 * p,
            t == y * (2 * p + q) + x * (p + 2 * q),
    ;
    assert(xy * t == f * z + p3 * v) by (nonlinear_arith)
        requires
            t == g * f + gp * (x + g),
            gp == g * p3,
            z == g * xy,
            v == z * (x + g),
    {
        assert(xy * (g * f) == f * (g * xy));
        assert(xy * ((g * p3) * (x + g)) == p3 * ((g * xy) * (x + g)));
    }
}

/// A flat part of a cubic curve, from time `s / n` to time `e / n`, stays within
/// a quarter of the tolerance of its chord: at any time `u / n` between, the
/// curve is that close to the point of the chord at the same time.
pub proof fn law_cubic_near_chord(
    a: int,
    b: int,
    c: int,
    d: int,
    n: int,
    s: int,
    e: int,
    u: int,
    tol: int,
)
    requires
        0 < n,
        s <= u <= e,
        span_is_flat(a, b, c, d, s, e, n, tol),
    ensures
        4 * fixed::abs(
            (e - s) * cubic_at(a, b, c, d, u, n) - (e - u) * cubic_at(a, b, c, d, s, n) - (u - s)
                * cubic_at(a, b, c, d, e, n),
        ) <= (e - s) * (tol * (n * n * n)),
{
    lemma_cubic_deviation(a, b, c, d, n, s, e, u);
    let x = u - s;
    let y = e - u;
    let g = e - s;
    let p = bend(a, b, c, d, s, n);
    let q = bend(a, b, c, d, e, n);
    let f1 = fixed::abs(2 * p + q);
    let f2 = fixed::abs(p + 2 * q);
    let t = y * (2 * p + q) + x * (p + 2 * q);
    let r = tol * (n * n * n);
    let gg = g * g;
    let m = fixed::abs(t);
    assert(m * gg <= g * r) by {
        assert(m <= y * f1 + x * f2) by (nonlinear_arith)
            requires
                0 <= x,
                0 <= y,
                -f1 <= 2 * p + q <= f1,
                -f2 <= p + 2 * q <= f2,
                m == t || m == -t,
                t == y * (2 * p + q) + x * (p + 2 * q),
        ;
        assert((y * f1 + x * f2) * gg <= g * r) by (nonlinear_arith)
            requires
                0 <= x,
                0 <= y,
                g == x + y,
                f1 * gg <= r,
                f2 * gg <= r,
        {
            assert((y * f1 + x * f2) * gg == y * (f1 * gg) + x * (f2 * gg));
            assert(y * (f1 * gg) <= y * r);
            assert(x * (f2 * gg) <= x * r);
            assert(y * r + x * r == g * r);
        }
        assert(0 <= gg) by (nonlinear_arith)
            requires
                gg == g * g,
        ;
        assert(m * gg <= (y * f1 + x * f2) * gg) by (nonlinear_arith)
            requires
                m <= y * f1 + x * f2,
                0 <= gg,
        ;
    }
    let xy = x * y;
    assert(0 <= xy && 4 * xy <= gg) by (nonlinear_arith)
        requires
            xy == x * y,
            gg == g * g,
            g == x + y,
            0 <= x,
            0 <= y,
    {
        assert((x + y) * (x + y) - 4 * (x * y) == (x - y) * (x - y));
        assert(0 <= (x - y) * (x - y));
    }
    assert(fixed::abs(-(xy * t)) == xy * m) by {
        assert(t >= 0 ==> xy * t >= 0 && xy * t == xy * m) by (nonlinear_arith)
            requires
                0 <= xy,
                t >= 0 ==> m == t,
        ;
        assert(t < 0 ==> xy * t <= 0 && -(xy * t) == xy * m) by (nonlinear_arith)
            requires
                0 <= xy,
                t < 0 ==> m == -t,
        ;
    }
    assert(4 * (xy * m) <= gg * m) by (nonlinear_arith)
        requires
            4 * xy <= gg,
            0 <= m,
    ;
    assert(gg * m == m * gg) by (nonlinear_arith);
}

/// Whatever the arithmetic, the chords of a quadratic curve are its own chord if
/// it is flat along both axes or has been halved sixteen times, and otherwise
/// those of its two halves, one after the other. The halves meet at the midpoint
/// of the midpoints of the control lines.
pub proof fn law_quad_halving<T>(ops: QuadOps<T>, q: Quad<T>, depth: int)
    ensures
        ({
            let (mid, fix) = (ops.mid, ops.fix);
            let (xa, xb) = (mid(q.x0, q.x1), mid(q.x1, q.x2));
            let (ya, yb) = (mid(q.y0, q.y1), mid(q.y1, q.y2));
            let (xm, ym) = (mid(xa, xb), mid(ya, yb));
            ops.chords(q, depth) == if depth >= 16 || ((ops.flat)(q.x0, q.x1, q.x2) && (ops.flat)(
                q.y0,
                q.y1,
                q.y2,
            )) {
                seq![((fix(q.x0), fix(q.y0)), (fix(q.x2), fix(q.y2)))]
            } else {
                ops.chords(
                    Quad { x0: q.x0, y0: q.y0, x1: xa, y1: ya, x2: xm, y2: ym },
                    depth + 1,
                ) + ops.chords(
                    Quad { x0: xm, y0: ym, x1: xb, y1: yb, x2: q.x2, y2: q.y2 },
                    depth + 1,
                )
            }
        }),
{
}

/// Whatever the arithmetic, the chords of a cubic curve are its own chord if it
/// is flat along both axes or has been halved sixteen times, and otherwise those
/// of its two halves, one after the other. The halves meet where repeated
/// midpoints of the control lines do.
pub proof fn law_cubic_halving<T>(ops: CubicOps<T>, c: Cubic<T>, depth: int)
    ensures
        ({
            let (mid, fix) = (ops.mid, ops.fix);
            let (xa, xb, xc) = (mid(c.x0, c.x1), mid(c.x1, c.x2), mid(c.x2, c.x3));
            let (ya, yb, yc) = (mid(c.y0, c.y1), mid(c.y1, c.y2), mid(c.y2, c.y3));
            let (xd, xe) = (mid(xa, xb), mid(xb, xc));
            let (yd, ye) = (mid(ya, yb), mid(yb, yc));
            let (xm, ym) = (mid(xd, xe), mid(yd, ye));
            ops.chords(c, depth) == if depth >= 16 || ((ops.flat)(c.x0, c.x1, c.x2, c.x3) && (
            ops.flat)(c.y0, c.y1, c.y2, c.y3)) {
                seq![((fix(c.x0), fix(c.y0)), (fix(c.x3), fix(c.y3)))]
            } else {
                ops.chords(
                    Cubic {
                        x0: c.x0,
                        y0: c.y0,
                        x1: xa,
                        y1: ya,
                        x2: xd,
                        y2: yd,
                        x3: xm,
                        y3: ym,
                    },
                    depth + 1,
                ) + ops.chords(
                    Cubic {
                        x0: xm,
                        y0: ym,
                        x1: xe,
                        y1: ye,
                        x2: xc,
                        y2: yc,
                        x3: c.x3,
                        y3: c.y3,
                    },
                    depth + 1,
                )
            }
        }),
{
}

/// Mathematical functions describe the operations of a quadratic curve if every
/// result of an operation is the function's.
pub proof fn law_quad_described<T, M: Fn(T, T) -> T, F: Fn(T, T, T) -> bool, P: Fn(T) -> i32>(
    ops: QuadOps<T>,
    mid: M,
    flat: F,
    fix: P,
)
    requires
        forall|a: T, b: T, r: T| #[trigger]
            call_ensures(mid, (a, b), r) ==> r == (ops.mid)(a, b),
        forall|a: T, b: T, c: T, r: bool| #[trigger]
            call_ensures(flat, (a, b, c), r) ==> r == (ops.flat)(a, b, c),
        forall|a: T, r: i32| #[trigger] call_ensures(fix, (a,), r) ==> r == (ops.fix)(a),
    ensures
        ops.describe(mid, flat, fix),
{
}

/// Mathematical functions describe the operations of a cubic curve if every
/// result of an operation is the function's.
pub proof fn law_cubic_described<T, M: Fn(T, T) -> T, F: Fn(T, T, T, T) -> bool, P: Fn(T) -> i32>(
    ops: CubicOps<T>,
    mid: M,
    flat: F,
    fix: P,
)
    requires
        forall|a: T, b: T, r: T| #[trigger]
            call_ensures(mid, (a, b), r) ==> r == (ops.mid)(a, b),
        forall|a: T, b: T, c: T, d: T, r: bool| #[trigger]
            call_ensures(flat, (a, b, c, d), r) ==> r == (ops.flat)(a, b, c, d),
        forall|a: T, r: i32| #[trigger] call_ensures(fix, (a,), r) ==> r == (ops.fix)(a),
    ensures
        ops.describe(mid, flat, fix),
{
}

} // verus!
