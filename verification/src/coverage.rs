//! Coverage of arbitrary polygons against their exact area.
use crate::balance;
use crate::edge;
use crate::edge::{Edge, Span};
use crate::fixed;
use crate::laws;
use crate::ramp;
use crate::scene;
use crate::scene::Extents;
use crate::sum;
use crate::trace;
use crate::trace::Side;
use vstd::prelude::*;

verus! {

/// Twice the exact area of the pixel in device row `line` and device column
/// `col` that lies right of the line from `p` down to `q`, in square sub-pixel
/// units, rounded down.
pub open spec fn area_right(p: (i32, i32), q: (i32, i32), line: int, col: int) -> int {
    let top = line * 256;
    let right = (col + 1) * 256;
    let ya = fixed::max(p.1 as int, top);
    let yb = fixed::min(q.1 as int, top + 256);
    let dx = q.0 - p.0;
    let dy = q.1 - p.1;
    if ya >= yb {
        0
    } else if dx == 0 {
        2 * (yb - ya) * ramp::clip(256, right - p.0)
    } else {
        // Where the line enters and leaves the row: its distance from the right
        // side of the pixel, in units of `1 / dy`.
        let a = (right - p.0) * dy - (ya - p.1) * dx;
        let b = (right - p.0) * dy - (yb - p.1) * dx;
        (ramp::ramp(256 * dy, fixed::max(a, b)) - ramp::ramp(256 * dy, fixed::min(a, b))) / (dy
            * fixed::abs(dx))
    }
}

/// The area right of a side, negative for a side that is drawn upward.
pub open spec fn side_area(s: Side, line: int, col: int) -> int {
    if s.0.1 == s.1.1 {
        0
    } else if s.0.1 < s.1.1 {
        area_right(s.0, s.1, line, col)
    } else {
        -area_right(s.1, s.0, line, col)
    }
}

/// Twice the area of a pixel inside of the polygon with the given sides, each
/// part as often as the polygon winds around it.
pub open spec fn polygon_area(sides: Seq<Side>, line: int, col: int) -> int
    decreases sides.len(),
{
    if sides.len() == 0 {
        0
    } else {
        polygon_area(sides.drop_last(), line, col) + side_area(sides.last(), line, col)
    }
}

/// A side runs through the inside of a pixel's row and column, at a slant.
/// Sides that do not have their exact area.
pub open spec fn crosses(s: Side, line: int, col: int) -> bool {
    &&& s.0.0 != s.1.0
    &&& s.0.1 < (line + 1) * 256 || s.1.1 < (line + 1) * 256
    &&& s.0.1 > line * 256 || s.1.1 > line * 256
    &&& s.0.0 < (col + 1) * 256 || s.1.0 < (col + 1) * 256
    &&& s.0.0 > col * 256 || s.1.0 > col * 256
}

/// How far the area of one side may be off: it grows with the number of pixels
/// that the side crosses within a row, and for sides that are hundreds of
/// pixels high.
pub open spec fn side_error(s: Side, line: int, col: int) -> int {
    if s.0.1 == s.1.1 || !crosses(s, line, col) {
        0
    } else {
        let dx = fixed::abs(s.1.0 - s.0.0);
        let dy = fixed::abs(s.1.1 - s.0.1);
        512 * (dx / dy + 5 + 2 * (dy / 65536))
    }
}

/// How far the area of a polygon may be off in one pixel.
pub open spec fn polygon_error(sides: Seq<Side>, line: int, col: int) -> int
    decreases sides.len(),
{
    if sides.len() == 0 {
        0
    } else {
        polygon_error(sides.drop_last(), line, col) + side_error(sides.last(), line, col)
    }
}

/// Consecutive rows join: an edge leaves a row where it enters the next one.
/// It enters its first row at its top end, and within each row it runs from the
/// row's top, or its own, to the row's bottom, or its own.
pub proof fn law_rows_join(e: Edge, top: int)
    requires
        e.wf(),
        e.yl < top + 256,
        top < e.yh,
    ensures
        e.meets(top),
        e.span(top).ya + top == fixed::max(e.yl as int, top),
        e.span(top).yb + top == fixed::min(e.yh as int, top + 256),
        top <= e.yl ==> e.span(top).xa == e.xl,
        top + 256 < e.yh ==> e.span(top).xb == e.span(top + 256).xa,
{
    let s = e.slope as int;
    assert(0 * s == 0) by (nonlinear_arith);
}

/// In every row, both ends of an edge's span lie on the edge, up to an error of
/// `2 + height / 65536` units.
pub proof fn law_span_on_edge(e: Edge, top: int)
    requires
        e.wf(),
        e.yl < top + 256,
        top < e.yh,
    ensures
        ({
            let s = e.span(top);
            let dx = e.xh - e.xl;
            let dy = e.yh - e.yl;
            let slack = (2 + dy / 65536) * dy;
            &&& fixed::abs((s.xa - e.xl) * dy - (s.ya + top - e.yl) * dx) <= slack
            &&& fixed::abs((s.xb - e.xl) * dy - (s.yb + top - e.yl) * dx) <= slack
            &&& dx >= 0 ==> s.xa <= s.xb
            &&& dx <= 0 ==> s.xb <= s.xa
        }),
{
    let ya = fixed::max(e.yl as int, top);
    let yb = fixed::min(e.yh as int, top + 256);
    lemma_near(e, ya);
    lemma_near(e, yb);
    let dx = e.xh - e.xl;
    let dy = e.yh - e.yl;
    let n = dx * 65536;
    vstd::arithmetic::div_mod::lemma_div_pos_is_pos(fixed::abs(n), dy);
    let s = e.slope as int;
    let a = ya - e.yl;
    let b = yb - e.yl;
    if dx >= 0 {
        assert(a * s <= b * s) by (nonlinear_arith)
            requires
                a <= b,
                0 <= s,
        ;
    }
    if dx <= 0 {
        if dx == 0 {
            vstd::arithmetic::div_mod::lemma_div_of0(dy);
        }
        assert(b * s <= a * s) by (nonlinear_arith)
            requires
                a <= b,
                s <= 0,
        ;
    }
}

/// A point of an edge is close to the straight line between its ends.
proof fn lemma_near(e: Edge, y: int)
    requires
        e.wf(),
        e.yl <= y <= e.yh,
    ensures
        fixed::abs((e.x_at(y) - e.xl) * (e.yh - e.yl) - (y - e.yl) * (e.xh - e.xl)) <= (2 + (e.yh
            - e.yl) / 65536) * (e.yh - e.yl),
{
    laws::law_slope_accuracy(e, y);
    let dy = e.yh - e.yl;
    let t = y - e.yl;
    let off = (e.x_at(y) - e.xl) * dy - t * (e.xh - e.xl);
    let slack = 2 + dy / 65536;
    assert((65536 + t) * dy <= (slack * 65536) * dy) by (nonlinear_arith)
        requires
            0 < dy,
            65536 + t <= slack * 65536,
    ;
    assert((slack * 65536) * dy == (slack * dy) * 65536) by (nonlinear_arith);
}

/// What a span adds to a pixel, as bounds of a mean.
proof fn lemma_span_mean(s: Span, col: int)
    requires
        s.wf(),
    ensures
        ({
            let v = 512 * s.cover_through(col) - s.area(col);
            let err = 512 * (s.steps() + 1);
            let right = (col + 1) * 256;
            let p0 = right - fixed::max(s.xa, s.xb);
            let p1 = right - fixed::min(s.xa, s.xb);
            &&& ramp::above(256, p0, p1, v + err, s.rise())
            &&& ramp::below(256, p0, p1, v - err, s.rise())
        }),
{
    let v = 512 * s.cover_through(col) - s.area(col);
    let err = 512 * (s.steps() + 1);
    let right = (col + 1) * 256;
    let xl = fixed::min(s.xa, s.xb);
    let xr = fixed::max(s.xa, s.xb);
    let p0 = right - xr;
    let p1 = right - xl;
    let run = s.run();
    let h = s.rise();
    laws::law_slanted_coverage(s, col);
    assert(laws::column_beyond(col, xl) == ramp::ramp(256, p1)) by {
        lemma_beyond_is_ramp(col, xl);
    }
    assert(laws::column_beyond(col, xr) == ramp::ramp(256, p0)) by {
        lemma_beyond_is_ramp(col, xr);
    }
    let exact = h * (ramp::ramp(256, p1) - ramp::ramp(256, p0));
    assert(p1 - p0 == run);
    assert(fixed::abs(v * run - exact) <= err * run) by {
        if s.leftmost() <= col <= s.rightmost() {
            let k = s.step(col);
            assert(512 * (k + 1) * run <= err * run) by (nonlinear_arith)
                requires
                    k <= s.steps(),
                    err == 512 * (s.steps() + 1),
                    0 <= run,
            ;
        } else {
            assert(0 <= err * run) by (nonlinear_arith)
                requires
                    0 <= err,
                    0 <= run,
            ;
        }
    }
    assert((v + err) * run == v * run + err * run) by (nonlinear_arith);
    assert((v - err) * run == v * run - err * run) by (nonlinear_arith);
    // The value lies between those of an upright line at either end.
    lemma_span_range(s, col);
    assert(2 * h * ramp::clip(256, p0) <= 2 * h * ramp::clip(256, p1)) by (nonlinear_arith)
        requires
            0 < h,
            ramp::clip(256, p0) <= ramp::clip(256, p1),
    ;
}

proof fn lemma_beyond_is_ramp(col: int, x: int)
    ensures
        laws::column_beyond(col, x) == ramp::ramp(256, (col + 1) * 256 - x),
{
    let p = (col + 1) * 256 - x;
    assert(256 * 256 + 2 * 256 * (p - 256) == 65536 + 512 * (p - 256)) by (nonlinear_arith);
    if p == 256 {
        assert(p * p == 65536) by (nonlinear_arith)
            requires
                p == 256,
        ;
    }
}

/// What a span adds to a pixel lies between what upright lines at its two ends
/// would add, up to what one step of the walk may be off.
proof fn lemma_span_range(s: Span, col: int)
    requires
        s.wf(),
    ensures
        ({
            let v = 512 * s.cover_through(col) - s.area(col);
            let err = 512 * (s.steps() + 1);
            let right = (col + 1) * 256;
            let p0 = right - fixed::max(s.xa, s.xb);
            let p1 = right - fixed::min(s.xa, s.xb);
            &&& v + err >= 2 * s.rise() * ramp::clip(256, p0)
            &&& v - err <= 2 * s.rise() * ramp::clip(256, p1)
        }),
{
    edge::lemma_levels(s);
    let h = s.rise();
    let v = 512 * s.cover_through(col) - s.area(col);
    let right = (col + 1) * 256;
    let p0 = right - fixed::max(s.xa, s.xb);
    let p1 = right - fixed::min(s.xa, s.xb);
    let c0 = ramp::clip(256, p0);
    let c1 = ramp::clip(256, p1);
    assert(0 <= c0 <= c1 <= 256);
    assert(0 <= 2 * h * c0 <= 2 * h * c1 <= 512 * h) by (nonlinear_arith)
        requires
            0 < h,
            0 <= c0 <= c1 <= 256,
    ;
    edge::lemma_span_bounds(s, col);
    if col < s.leftmost() {
        assert(c0 == 0 && c1 == 0);
        assert(v == 0);
    } else if s.rightmost() < col {
        assert(c0 == 256 && c1 == 256);
        assert(2 * h * 256 == 512 * h) by (nonlinear_arith);
        assert(v == 512 * h);
    } else if s.first() == s.last() {
        let a = s.xa % 256;
        let b = s.xb % 256;
        assert(s.steps() == 0);
        assert(s.area(col) == (a + b) * h);
        assert(p0 == 256 - fixed::max(a, b) && p1 == 256 - fixed::min(a, b));
        assert(2 * h * c0 <= 512 * h - (a + b) * h <= 2 * h * c1) by (nonlinear_arith)
            requires
                0 < h,
                2 * c0 <= 512 - (a + b) <= 2 * c1,
        ;
    } else if s.leftmost() < col < s.rightmost() {
        assert(c0 == 0 && c1 == 256);
        assert(2 * h * 256 == 512 * h && 2 * h * 0 == 0) by (nonlinear_arith);
        assert(0 <= v <= 512 * h);
    } else {
        laws::law_slanted_coverage(s, col);
        let run = s.run();
        let b0 = ramp::ramp(256, p0);
        let b1 = ramp::ramp(256, p1);
        lemma_beyond_is_ramp(col, fixed::min(s.xa, s.xb));
        lemma_beyond_is_ramp(col, fixed::max(s.xa, s.xb));
        ramp::lemma_mean(256, p0, p1);
        let k = s.step(col);
        let e = 512 * (k + 1);
        let err = 512 * (s.steps() + 1);
        assert(p1 - p0 == run);
        assert(0 < run);
        lemma_divide(v, e, h, run, b1 - b0, c0, c1);
    }
}

proof fn lemma_divide(v: int, e: int, h: int, run: int, f: int, c0: int, c1: int)
    requires
        fixed::abs(v * run - h * f) <= e * run,
        2 * c0 * run <= f <= 2 * c1 * run,
        0 < run,
        0 < h,
    ensures
        v + e >= 2 * h * c0,
        v - e <= 2 * h * c1,
{
    assert(v + e >= 2 * h * c0) by (nonlinear_arith)
        requires
            v * run - h * f >= -(e * run),
            2 * c0 * run <= f,
            0 < run,
            0 < h,
    {
        assert(h * (2 * c0 * run) <= h * f);
        assert(h * (2 * c0 * run) == (2 * h * c0) * run);
        assert((v + e) * run == v * run + e * run);
        assert((v + e) * run >= (2 * h * c0) * run);
    }
    assert(v - e <= 2 * h * c1) by (nonlinear_arith)
        requires
            v * run - h * f <= e * run,
            f <= 2 * c1 * run,
            0 < run,
            0 < h,
    {
        assert(h * f <= h * (2 * c1 * run));
        assert(h * (2 * c1 * run) == (2 * h * c1) * run);
        assert((v - e) * run == v * run - e * run);
        assert((v - e) * run <= (2 * h * c1) * run);
    }
}

/// An edge crosses a bounded number of columns within a row.
proof fn lemma_steps(e: Edge, top: int)
    requires
        e.wf(),
        e.yl < top + 256,
        top < e.yh,
    ensures
        ({
            let dx = fixed::abs(e.xh - e.xl);
            let dy = e.yh - e.yl;
            e.span(top).steps() <= dx / dy + 2 + dy / 65536
        }),
{
    law_span_on_edge(e, top);
    let s = e.span(top);
    let dx = e.xh - e.xl;
    let dy = e.yh - e.yl;
    let adx = fixed::abs(dx);
    let slack = 2 + dy / 65536;
    let h = s.yb - s.ya;
    let n = s.steps();
    let q = adx / dy;
    let run = s.run();
    let ta = s.ya + top - e.yl;
    let tb = s.yb + top - e.yl;
    assert(run * dy <= adx * h + 2 * (slack * dy)) by {
        let w = s.xb - s.xa;
        assert((s.xb - e.xl) * dy - (s.xa - e.xl) * dy == w * dy) by (nonlinear_arith)
            requires
                w == s.xb - s.xa,
        ;
        assert(tb * dx - ta * dx == h * dx) by (nonlinear_arith)
            requires
                tb - ta == h,
        ;
        if dx >= 0 {
            assert(h * dx == adx * h) by (nonlinear_arith)
                requires
                    dx == adx,
            ;
            assert(run == w);
        } else {
            assert(h * dx == -(adx * h)) by (nonlinear_arith)
                requires
                    dx == -adx,
            ;
            assert(run == -w);
            assert((-w) * dy == -(w * dy)) by (nonlinear_arith);
        }
    }
    assert(256 * n <= run + 255);
    vstd::arithmetic::div_mod::lemma_fundamental_div_mod(adx, dy);
    assert(adx < (q + 1) * dy) by (nonlinear_arith)
        requires
            adx == dy * q + adx % dy,
            adx % dy < dy,
    ;
    assert(adx * h <= adx * 256) by (nonlinear_arith)
        requires
            0 <= adx,
            h <= 256,
    ;
    if n > q + slack {
        let x = q + 1 + slack;
        assert(256 * x * dy <= 256 * n * dy) by (nonlinear_arith)
            requires
                x <= n,
                0 < dy,
        ;
        assert(256 * n * dy <= (run + 255) * dy) by (nonlinear_arith)
            requires
                256 * n <= run + 255,
                0 < dy,
        ;
        assert((run + 255) * dy == run * dy + 255 * dy) by (nonlinear_arith);
        assert(256 * x * dy == 256 * ((q + 1) * dy) + 256 * (slack * dy)) by (nonlinear_arith)
            requires
                x == q + 1 + slack,
        ;
        assert(2 * (slack * dy) + 255 * dy <= 256 * (slack * dy)) by (nonlinear_arith)
            requires
                2 <= slack,
                0 < dy,
        ;
        assert(false);
    }
}

/// What an edge adds to a pixel is close to the exact area right of the line
/// between its ends.
pub proof fn law_edge_coverage(e: Edge, s: Side, line: int, col: int)
    requires
        e.wf(),
        s.0.1 != s.1.1,
        trace::joins(e, s),
    ensures
        fixed::abs(
            512 * e.cover_through(line * 256, col) - e.area(line * 256, col) - side_area(
                s,
                line,
                col,
            ),
        ) <= side_error(s, line, col),
{
    let top = line * 256;
    let p = (e.xl, e.yl);
    let q = (e.xh, e.yh);
    let exact = area_right(p, q, line, col);
    let dx = e.xh - e.xl;
    let dy = e.yh - e.yl;
    let w = e.wind as int;
    if !e.meets(top) {
        assert(exact == 0);
    } else if !crosses(s, line, col) {
        lemma_clear_of_pixel(e, line, col);
    } else {
        let sp = e.span(top);
        let v = 512 * sp.cover_through(col) - sp.area(col);
        lemma_line_coverage(e, line, col);
        lemma_steps(e, top);
        assert(fixed::abs(v - exact) <= side_error(s, line, col));
        fixed::lemma_signed(sp.cover_through(col), w);
        fixed::lemma_signed(sp.area(col), w);
    }
}

/// The area right of an upright edge, or of one that passes the pixel's column
/// by, is exact.
proof fn lemma_clear_of_pixel(e: Edge, line: int, col: int)
    requires
        e.wf(),
        e.meets(line * 256),
        e.xl == e.xh || (col + 1) * 256 <= fixed::min(e.xl as int, e.xh as int) || fixed::max(
            e.xl as int,
            e.xh as int,
        ) <= col * 256,
    ensures
        512 * e.cover_through(line * 256, col) - e.area(line * 256, col) == area_right(
            (e.xl, e.yl),
            (e.xh, e.yh),
            line,
            col,
        ) * e.wind,
{
    let top = line * 256;
    let right = (col + 1) * 256;
    let exact = area_right((e.xl, e.yl), (e.xh, e.yh), line, col);
    let w = e.wind as int;
    let dx = e.xh - e.xl;
    let dy = e.yh - e.yl;
    let adx = fixed::abs(dx);
    let ya = fixed::max(e.yl as int, top);
    let yb = fixed::min(e.yh as int, top + 256);
    let h = yb - ya;
    if dx == 0 {
        laws::lemma_upright_edge(e, top, col);
        let c = ramp::clip(256, right - e.xl);
        assert(c == col * 256 + 256 - fixed::clamp(e.xl as int, col * 256, col * 256 + 256));
        assert(2 * (h * c) == 2 * h * c) by (nonlinear_arith);
    } else {
        let a = (right - e.xl) * dy - (ya - e.yl) * dx;
        let b = (right - e.xl) * dy - (yb - e.yl) * dx;
        let den = dy * adx;
        assert(den > 0) by (nonlinear_arith)
            requires
                den == dy * adx,
                dy > 0,
                adx > 0,
        ;
        if right <= fixed::min(e.xl as int, e.xh as int) {
            balance::lemma_left_of_edge(e, top, col);
            lemma_far(right - e.xl, right - e.xh, dy, ya - e.yl, 0);
            lemma_far(right - e.xl, right - e.xh, dy, yb - e.yl, 0);
            assert((ya - e.yl) * ((right - e.xh) - (right - e.xl)) == -((ya - e.yl) * dx))
                by (nonlinear_arith)
                requires
                    dx == e.xh - e.xl,
            ;
            assert((yb - e.yl) * ((right - e.xh) - (right - e.xl)) == -((yb - e.yl) * dx))
                by (nonlinear_arith)
                requires
                    dx == e.xh - e.xl,
            ;
            assert(0 * dy == 0) by (nonlinear_arith);
            assert(a <= 0 && b <= 0);
            assert(0int / den == 0) by {
                vstd::arithmetic::div_mod::lemma_div_of0(den);
            }
            assert(exact == 0);
            assert(0 * w == 0) by (nonlinear_arith);
        } else {
            balance::lemma_right_of_edge(e, top, col);
            let k = 256 * dy;
            lemma_far(e.xl - right, e.xh - right, dy, ya - e.yl, -256);
            lemma_far(e.xl - right, e.xh - right, dy, yb - e.yl, -256);
            assert((e.xl - right) * dy == -((right - e.xl) * dy)) by (nonlinear_arith);
            assert((ya - e.yl) * ((e.xh - right) - (e.xl - right)) == (ya - e.yl) * dx);
            assert((yb - e.yl) * ((e.xh - right) - (e.xl - right)) == (yb - e.yl) * dx);
            assert(k <= a && k <= b);
            let hi = fixed::max(a, b);
            let lo = fixed::min(a, b);
            lemma_long_ramp(k, hi);
            lemma_long_ramp(k, lo);
            assert(2 * k * hi - 2 * k * lo == 2 * k * (hi - lo)) by (nonlinear_arith);
            assert(a - b == h * dx) by (nonlinear_arith)
                requires
                    a == (right - e.xl) * dy - (ya - e.yl) * dx,
                    b == (right - e.xl) * dy - (yb - e.yl) * dx,
                    h == yb - ya,
            ;
            assert(hi - lo == adx * h) by {
                if dx >= 0 {
                    assert(h * dx == adx * h && 0 <= adx * h) by (nonlinear_arith)
                        requires
                            dx == adx,
                            0 <= dx,
                            0 < h,
                    ;
                } else {
                    assert(h * dx == -(adx * h) && 0 <= adx * h) by (nonlinear_arith)
                        requires
                            dx == -adx,
                            dx < 0,
                            0 < h,
                    ;
                }
            }
            assert(2 * k * (adx * h) == (512 * h) * den) by (nonlinear_arith)
                requires
                    k == 256 * dy,
                    den == dy * adx,
            ;
            lemma_quotient((512 * h) * den, den, 512 * h, 512 * h);
            assert(exact == 512 * h);
            assert(512 * (h * w) == (512 * h) * w) by (nonlinear_arith);
        }
    }
}

/// A line whose ends lie at the distances `u` and `v` stays between them.
proof fn lemma_far(u: int, v: int, dy: int, t: int, bound: int)
    requires
        u <= bound,
        v <= bound,
        0 < dy,
        0 <= t <= dy,
    ensures
        u * dy + t * (v - u) <= bound * dy,
{
    assert(u * dy + t * (v - u) == u * (dy - t) + v * t) by (nonlinear_arith);
    assert(u * (dy - t) <= bound * (dy - t)) by (nonlinear_arith)
        requires
            u <= bound,
            t <= dy,
    ;
    assert(v * t <= bound * t) by (nonlinear_arith)
        requires
            v <= bound,
            0 <= t,
    ;
    assert(bound * (dy - t) + bound * t == bound * dy) by (nonlinear_arith);
}

/// The ramp of a line left of the column.
proof fn lemma_long_ramp(k: int, p: int)
    requires
        0 < k <= p,
    ensures
        ramp::ramp(k, p) == 2 * k * p - k * k,
{
    assert(k * k + 2 * k * (p - k) == 2 * k * p - k * k) by (nonlinear_arith);
    if p == k {
        assert(p * p == k * k + 2 * k * (p - k)) by (nonlinear_arith)
            requires
                p == k,
        ;
    }
}

/// What a span adds to a pixel is close to the exact area right of its edge.
proof fn lemma_line_coverage(e: Edge, line: int, col: int)
    requires
        e.wf(),
        e.meets(line * 256),
    ensures
        ({
            let s = e.span(line * 256);
            let v = 512 * s.cover_through(col) - s.area(col);
            fixed::abs(v - area_right((e.xl, e.yl), (e.xh, e.yh), line, col)) <= 512 * (s.steps()
                + 1) + 512 * (2 + (e.yh - e.yl) / 65536)
        }),
{
    let top = line * 256;
    let right = (col + 1) * 256;
    let s = e.span(top);
    let v = 512 * s.cover_through(col) - s.area(col);
    let err = 512 * (s.steps() + 1);
    let h = s.rise();
    let dx = e.xh - e.xl;
    let dy = e.yh - e.yl;
    let adx = fixed::abs(dx);
    let slack = 2 + dy / 65536;
    let t = slack * dy;
    let ya = fixed::max(e.yl as int, top);
    let yb = fixed::min(e.yh as int, top + 256);
    edge::lemma_span_wf(e, top);
    lemma_span_mean(s, col);
    law_span_on_edge(e, top);
    let p0 = right - fixed::max(s.xa, s.xb);
    let p1 = right - fixed::min(s.xa, s.xb);
    ramp::lemma_scale_bounds(256, p0, p1, v + err, v - err, h, dy);
    let a = (right - e.xl) * dy - (ya - e.yl) * dx;
    let b = (right - e.xl) * dy - (yb - e.yl) * dx;
    let q0 = fixed::min(a, b);
    let q1 = fixed::max(a, b);
    assert(a - b == h * dx) by (nonlinear_arith)
        requires
            a == (right - e.xl) * dy - (ya - e.yl) * dx,
            b == (right - e.xl) * dy - (yb - e.yl) * dx,
            h == yb - ya,
    ;
    assert((right - s.xa) * dy - a == -((s.xa - e.xl) * dy - (ya - e.yl) * dx))
        by (nonlinear_arith)
        requires
            a == (right - e.xl) * dy - (ya - e.yl) * dx,
    ;
    assert((right - s.xb) * dy - b == -((s.xb - e.xl) * dy - (yb - e.yl) * dx))
        by (nonlinear_arith)
        requires
            b == (right - e.xl) * dy - (yb - e.yl) * dx,
    ;
    assert(q1 - q0 == adx * h) by {
        if dx >= 0 {
            assert(h * dx == adx * h && 0 <= adx * h) by (nonlinear_arith)
                requires
                    dx == adx,
                    0 <= dx,
                    0 < h,
            ;
        } else {
            assert(h * dx == -(adx * h) && 0 <= adx * h) by (nonlinear_arith)
                requires
                    dx == -adx,
                    dx < 0,
                    0 < h,
            ;
        }
    }
    assert(0 <= t) by (nonlinear_arith)
        requires
            t == slack * dy,
            0 <= slack,
            0 < dy,
    ;
    assert(q0 - t <= p0 * dy <= q0 + t && q1 - t <= p1 * dy <= q1 + t) by {
        if dx > 0 {
            assert(h * dx > 0) by (nonlinear_arith)
                requires
                    0 < h,
                    0 < dx,
            ;
        } else if dx < 0 {
            assert(h * dx < 0) by (nonlinear_arith)
                requires
                    0 < h,
                    dx < 0,
            ;
        } else {
            assert(h * dx == 0) by (nonlinear_arith)
                requires
                    dx == 0,
            ;
        }
    }
    ramp::lemma_above(256 * dy, p0 * dy, p1 * dy, q0, q1, (v + err) * dy, h, t);
    ramp::lemma_below(256 * dy, p0 * dy, p1 * dy, q0, q1, (v - err) * dy, h, t);
    let up = v + err + 2 * slack * h;
    let low = v - err - 2 * slack * h;
    assert((v + err) * dy + 2 * t * h == up * dy) by (nonlinear_arith)
        requires
            t == slack * dy,
            up == v + err + 2 * slack * h,
    ;
    assert((v - err) * dy - 2 * t * h == low * dy) by (nonlinear_arith)
        requires
            t == slack * dy,
            low == v - err - 2 * slack * h,
    ;
    assert(2 * slack * h <= 512 * slack) by (nonlinear_arith)
        requires
            0 <= slack,
            h <= 256,
    ;
    let exact = area_right((e.xl, e.yl), (e.xh, e.yh), line, col);
    assert(low <= exact <= up) by {
        if dx == 0 {
            let c = ramp::clip(256, right - e.xl);
            ramp::lemma_scale(256, right - e.xl, dy);
            assert(q0 == q1);
            assert(a == (right - e.xl) * dy) by (nonlinear_arith)
                requires
                    a == (right - e.xl) * dy - (ya - e.yl) * dx,
                    dx == 0,
            ;
            assert(exact == 2 * h * c);
            assert(2 * h * (c * dy) == exact * dy) by (nonlinear_arith)
                requires
                    exact == 2 * h * c,
            ;
            lemma_cancel(low, exact, dy);
            lemma_cancel(exact, up, dy);
        } else {
            let f = ramp::ramp(256 * dy, q1) - ramp::ramp(256 * dy, q0);
            let den = dy * adx;
            assert((up * dy) * (adx * h) == h * (up * den)) by (nonlinear_arith)
                requires
                    den == dy * adx,
            ;
            assert((low * dy) * (adx * h) == h * (low * den)) by (nonlinear_arith)
                requires
                    den == dy * adx,
            ;
            lemma_cancel_left(low * den, f, h);
            lemma_cancel_left(f, up * den, h);
            assert(den > 0) by (nonlinear_arith)
                requires
                    den == dy * adx,
                    dy > 0,
                    adx > 0,
            ;
            assert(exact == f / den);
            lemma_quotient(f, den, low, up);
        }
    }
}

proof fn lemma_cancel(a: int, b: int, d: int)
    by (nonlinear_arith)
    requires
        a * d <= b * d,
        d > 0,
    ensures
        a <= b,
{
}

proof fn lemma_cancel_left(a: int, b: int, h: int)
    by (nonlinear_arith)
    requires
        h * a <= h * b,
        h > 0,
    ensures
        a <= b,
{
}

/// A quotient lies between the whole numbers that the dividend lies between.
proof fn lemma_quotient(f: int, d: int, low: int, up: int)
    requires
        d > 0,
        low * d <= f <= up * d,
    ensures
        low <= f / d <= up,
{
    vstd::arithmetic::div_mod::lemma_fundamental_div_mod(f, d);
    let q = f / d;
    assert(low <= q <= up) by (nonlinear_arith)
        requires
            d > 0,
            low * d <= f <= up * d,
            f == d * q + f % d,
            0 <= f % d < d,
    ;
}

/// The sums over the edges of a path are close to the exact area of its
/// polygon.
proof fn lemma_polygon(edges: Seq<Edge>, sides: Seq<Side>, line: int, col: int)
    requires
        scene::all_wf(edges),
        trace::traces(edges, sides),
    ensures
        fixed::abs(
            512 * laws::carried_cover(edges, line * 256, col) - scene::total_area(
                edges,
                line * 256,
                col,
            ) - polygon_area(sides, line, col),
        ) <= polygon_error(sides, line, col),
    decreases sides.len(),
{
    let top = line * 256;
    if sides.len() == 0 {
    } else if sides.last().0.1 == sides.last().1.1 {
        lemma_polygon(edges, sides.drop_last(), line, col);
    } else {
        let rest = edges.drop_last();
        let n = edges.len() as int;
        assert forall|i: int| 0 <= i < rest.len() implies (#[trigger] rest[i]).wf() by {
            assert(edges[i].wf());
        }
        lemma_polygon(rest, sides.drop_last(), line, col);
        law_edge_coverage(edges.last(), sides.last(), line, col);
        sum::lemma_sum_eq(
            n - 1,
            |i: int| edges[i].cover_through(top, col),
            |i: int| rest[i].cover_through(top, col),
        );
        sum::lemma_sum_eq(
            n - 1,
            |i: int| edges[i].area(top, col),
            |i: int| rest[i].area(top, col),
        );
    }
}

/// Coverage is analytic: each byte of an output is the area of its pixel inside
/// of the polygon that was drawn, on a scale of 255, up to half a step of the
/// scale and the error of the polygon's sides. Either direction of winding
/// fills, and no pixel is filled twice. Padding is zero.
pub proof fn law_polygon_coverage(
    edges: Seq<Edge>,
    sides: Seq<Side>,
    ext: Extents,
    stride: int,
    row: int,
    c: int,
)
    requires
        scene::all_wf(edges),
        trace::traces(edges, sides),
        ext.width <= stride,
        0 <= row < ext.height,
        0 <= c < stride,
    ensures
        c < ext.width ==> fixed::abs(
            scene::output(edges, ext, stride, row * stride + c) * 131072 - 255 * fixed::min(
                fixed::abs(polygon_area(sides, ext.y0 + row, ext.x0 + c)),
                131072,
            ),
        ) <= 65536 + 255 * polygon_error(sides, ext.y0 + row, ext.x0 + c),
        c >= ext.width ==> scene::output(edges, ext, stride, row * stride + c) == 0,
{
    let i = row * stride + c;
    vstd::arithmetic::div_mod::lemma_fundamental_div_mod_converse(i, stride, row, c);
    if c < ext.width {
        let line = ext.y0 + row;
        let col = ext.x0 + c;
        laws::law_clipping(edges, ext, row, c);
        lemma_polygon(edges, sides, line, col);
        let v = 512 * laws::carried_cover(edges, line * 256, col) - scene::total_area(
            edges,
            line * 256,
            col,
        );
        let alpha = fixed::min(fixed::abs(v), 131072);
        laws::law_alpha_scale(alpha, alpha);
    }
}

} // verus!
