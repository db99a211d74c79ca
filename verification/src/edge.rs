//! Edges of a filled outline and their geometry within one pixel row.
use crate::fixed;
use vstd::prelude::*;

verus! {

/// A non-horizontal line segment of an outline, stored from its end with the
/// smaller y to its end with the larger y.
#[derive(Copy, Clone, Debug)]
pub struct Edge {
    /// End with the smaller y (fixed point).
    pub xl: i32,
    pub yl: i32,
    /// End with the larger y (fixed point).
    pub xh: i32,
    pub yh: i32,
    /// dx/dy in 16.16 fixed point.
    pub slope: i64,
    /// +1 for a segment drawn toward larger y, -1 for the other direction.
    pub wind: i32,
}

/// The part of an edge that lies inside one pixel row, from its entry
/// `(xa, ya)` to its exit `(xb, yb)`. The x coordinates are absolute, the y
/// coordinates are relative to the top of the row.
///
/// The span is walked column by column, from the column of `xa` to the column
/// of `xb`. Step `k` of the walk enters column `column(k)` at `y_in(k)` and
/// leaves it at `y_out(k)`.
pub struct Span {
    pub xa: int,
    pub ya: int,
    pub xb: int,
    pub yb: int,
}

impl Span {
    /// The span makes progress downward and stays within its row.
    pub open spec fn wf(self) -> bool {
        0 <= self.ya < self.yb <= 256
    }

    /// Pixel column of the entry.
    pub open spec fn first(self) -> int {
        self.xa / 256
    }

    /// Pixel column of the exit.
    pub open spec fn last(self) -> int {
        self.xb / 256
    }

    /// The columns are walked left to right.
    pub open spec fn rightward(self) -> bool {
        self.first() <= self.last()
    }

    /// Leftmost column touched.
    pub open spec fn leftmost(self) -> int {
        fixed::min(self.first(), self.last())
    }

    /// Rightmost column touched.
    pub open spec fn rightmost(self) -> int {
        fixed::max(self.first(), self.last())
    }

    /// Number of column boundaries crossed.
    pub open spec fn steps(self) -> int {
        fixed::abs(self.last() - self.first())
    }

    /// Height of the span.
    pub open spec fn rise(self) -> int {
        self.yb - self.ya
    }

    /// Width of the span.
    pub open spec fn run(self) -> int {
        fixed::abs(self.xb - self.xa)
    }

    /// Horizontal distance from the entry to the first column boundary.
    pub open spec fn lead(self) -> int {
        if self.rightward() {
            256 - self.xa % 256
        } else {
            self.xa % 256
        }
    }

    /// Column of step `k`.
    pub open spec fn column(self, k: int) -> int {
        if self.rightward() {
            self.first() + k
        } else {
            self.first() - k
        }
    }

    /// Step at which the walk is in column `col`.
    pub open spec fn step(self, col: int) -> int {
        if self.rightward() {
            col - self.first()
        } else {
            self.first() - col
        }
    }

    /// Height at which step `k` enters its column. The rise to the first
    /// boundary and the rise per full column are each rounded down.
    pub open spec fn y_in(self, k: int) -> int {
        if k <= 0 {
            self.ya
        } else {
            self.ya + self.lead() * self.rise() / self.run() + (k - 1) * (256 * self.rise()
                / self.run())
        }
    }

    /// Height at which step `k` leaves its column. The last step absorbs what
    /// the rounding left over.
    pub open spec fn y_out(self, k: int) -> int {
        if k >= self.steps() {
            self.yb
        } else {
            self.y_in(k + 1)
        }
    }

    /// Position within its column at which step `k` enters.
    pub open spec fn x_in(self, k: int) -> int {
        if k <= 0 {
            self.xa % 256
        } else if self.rightward() {
            0
        } else {
            256
        }
    }

    /// Position within its column at which step `k` leaves.
    pub open spec fn x_out(self, k: int) -> int {
        if k >= self.steps() {
            self.xb % 256
        } else if self.rightward() {
            256
        } else {
            0
        }
    }

    /// Height that the span covers within column `col`.
    pub open spec fn cover(self, col: int) -> int {
        if self.leftmost() <= col <= self.rightmost() {
            self.y_out(self.step(col)) - self.y_in(self.step(col))
        } else {
            0
        }
    }

    /// Twice the area between the span and the left side of column `col`.
    pub open spec fn area(self, col: int) -> int {
        if self.leftmost() <= col <= self.rightmost() {
            (self.x_in(self.step(col)) + self.x_out(self.step(col))) * self.cover(col)
        } else {
            0
        }
    }

    /// Height that the span covers within column `col` and all columns to
    /// its left.
    pub open spec fn cover_through(self, col: int) -> int {
        if col < self.leftmost() {
            0
        } else if col >= self.rightmost() {
            self.rise()
        } else if self.rightward() {
            self.y_out(self.step(col)) - self.ya
        } else {
            self.yb - self.y_in(self.step(col))
        }
    }
}

impl Edge {
    /// The edge is normalized and its slope and direction are consistent.
    pub open spec fn wf(self) -> bool {
        &&& self.yl < self.yh
        &&& self.slope == fixed::trunc_div((self.xh - self.xl) * 65536, self.yh - self.yl)
        &&& self.wind == 1 || self.wind == -1
    }

    /// The x coordinate of the edge at height `y`, rounded down.
    pub open spec fn x_at(self, y: int) -> int {
        self.xl + (y - self.yl) * self.slope / 65536
    }

    /// The edge passes through the pixel row whose top is at `top`.
    pub open spec fn meets(self, top: int) -> bool {
        fixed::max(self.yl as int, top) < fixed::min(self.yh as int, top + 256)
    }

    /// The part of the edge inside the pixel row whose top is at `top`.
    pub open spec fn span(self, top: int) -> Span {
        let ya = fixed::max(self.yl as int, top);
        let yb = fixed::min(self.yh as int, top + 256);
        Span { xa: self.x_at(ya), ya: ya - top, xb: self.x_at(yb), yb: yb - top }
    }

    /// Signed height covered in column `col` of the row at `top`.
    pub open spec fn cover(self, top: int, col: int) -> int {
        if self.meets(top) {
            self.span(top).cover(col) * self.wind
        } else {
            0
        }
    }

    /// Signed height covered in column `col` of the row at `top` and in all
    /// columns to its left.
    pub open spec fn cover_through(self, top: int, col: int) -> int {
        if self.meets(top) {
            self.span(top).cover_through(col) * self.wind
        } else {
            0
        }
    }

    /// Signed doubled area left of the edge in column `col` of the row at
    /// `top`.
    pub open spec fn area(self, top: int, col: int) -> int {
        if self.meets(top) {
            self.span(top).area(col) * self.wind
        } else {
            0
        }
    }

    /// The edge of the segment from `(x0, y0)` to `(x1, y1)`.
    pub open spec fn spec_between(x0: i32, y0: i32, x1: i32, y1: i32) -> Edge {
        if y0 < y1 {
            Edge {
                xl: x0,
                yl: y0,
                xh: x1,
                yh: y1,
                slope: fixed::trunc_div((x1 - x0) * 65536, y1 - y0) as i64,
                wind: 1,
            }
        } else {
            Edge {
                xl: x1,
                yl: y1,
                xh: x0,
                yh: y0,
                slope: fixed::trunc_div((x0 - x1) * 65536, y0 - y1) as i64,
                wind: -1i32,
            }
        }
    }

    /// Build the edge of the segment from `(x0, y0)` to `(x1, y1)`.
    pub fn between(x0: i32, y0: i32, x1: i32, y1: i32) -> (e: Edge)
        requires
            y0 != y1,
        ensures
            e == Edge::spec_between(x0, y0, x1, y1),
            e.wf(),
            y0 < y1 ==> e.xl == x0 && e.yl == y0 && e.xh == x1 && e.yh == y1 && e.wind == 1,
            y0 > y1 ==> e.xl == x1 && e.yl == y1 && e.xh == x0 && e.yh == y0 && e.wind == -1,
    {
        let (xl, yl, xh, yh, wind): (i32, i32, i32, i32, i32) = if y0 < y1 {
            (x0, y0, x1, y1, 1)
        } else {
            (x1, y1, x0, y0, -1)
        };
        let dx: i64 = (xh as i64 - xl as i64) * 65536;
        let dy: i64 = yh as i64 - yl as i64;
        proof {
            lemma_quotient_magnitude(dx as int, dy as int);
        }
        let slope: i64 = dx / dy;
        Edge { xl, yl, xh, yh, slope, wind }
    }
}

/// A truncated quotient is no larger than its dividend.
proof fn lemma_quotient_magnitude(n: int, d: int)
    requires
        d > 0,
    ensures
        fixed::abs(fixed::trunc_div(n, d)) <= fixed::abs(n),
{
    vstd::arithmetic::div_mod::lemma_div_is_ordered_by_denominator(fixed::abs(n), 1, d);
    vstd::arithmetic::div_mod::lemma_div_pos_is_pos(fixed::abs(n), d);
}

/// Within an edge's vertical extent its x coordinate lies between those of its
/// ends, and the products that compute it stay small.
pub proof fn lemma_x_at(e: Edge, y: int)
    requires
        e.wf(),
        e.yl <= y <= e.yh,
    ensures
        fixed::min(e.xl as int, e.xh as int) <= e.x_at(y) <= fixed::max(e.xl as int, e.xh as int),
        fixed::abs((y - e.yl) * e.slope) <= 0x1_0000_0000_0000,
{
    let d = e.yh - e.yl;
    let t = y - e.yl;
    let n = (e.xh - e.xl) * 65536;
    let m = fixed::abs(n);
    let q = m / d;
    vstd::arithmetic::div_mod::lemma_fundamental_div_mod(m, d);
    vstd::arithmetic::div_mod::lemma_div_pos_is_pos(m, d);
    assert(0 <= t * q <= m) by (nonlinear_arith)
        requires
            0 <= t <= d,
            0 <= q,
            m == d * q + m % d,
            0 <= m % d,
            d > 0,
    ;
    if n >= 0 {
        assert(t * e.slope == t * q);
    } else {
        assert(t * e.slope == -(t * q)) by (nonlinear_arith)
            requires
                e.slope == -q,
        ;
    }
}

/// The heights at which a span's walk crosses column boundaries rise from the
/// entry to the exit.
pub proof fn lemma_levels(s: Span)
    requires
        s.wf(),
    ensures
        s.first() != s.last() ==> 0 < s.run() && 0 <= s.lead() <= s.run(),
        forall|k: int|
            #![trigger s.y_in(k)]
            #![trigger s.y_out(k)]
            0 <= k <= s.steps() ==> s.ya <= s.y_in(k) <= s.y_out(k) <= s.yb,
{
    if s.first() != s.last() {
        let n = s.steps();
        let rise = s.rise();
        let run = s.run();
        let q0 = s.lead() * rise / run;
        let q = 256 * rise / run;
        assert(s.lead() + (n - 1) * 256 <= run);
        vstd::arithmetic::mul::lemma_mul_nonnegative(s.lead(), rise);
        vstd::arithmetic::div_mod::lemma_fundamental_div_mod(s.lead() * rise, run);
        vstd::arithmetic::div_mod::lemma_fundamental_div_mod(256 * rise, run);
        vstd::arithmetic::div_mod::lemma_div_pos_is_pos(s.lead() * rise, run);
        vstd::arithmetic::div_mod::lemma_div_pos_is_pos(256 * rise, run);
        lemma_boundary_rise(s.lead(), rise, run, q0, q, n - 1);
        assert forall|k: int|
            #![trigger s.y_in(k)]
            #![trigger s.y_out(k)]
            0 <= k <= n implies s.ya <= s.y_in(k) <= s.y_out(k) <= s.yb by {
            if k >= 1 {
                assert(0 <= (k - 1) * q <= (n - 1) * q) by (nonlinear_arith)
                    requires
                        1 <= k <= n,
                        0 <= q,
                ;
            }
            if k < n {
                assert(0 <= k * q <= (n - 1) * q) by (nonlinear_arith)
                    requires
                        0 <= k <= n - 1,
                        0 <= q,
                ;
                if k >= 1 {
                    assert((k - 1) * q <= k * q) by (nonlinear_arith)
                        requires
                            0 <= q,
                    ;
                }
            }
        }
    }
}

/// Rounding down the rise to the first boundary and the rise per column never
/// overshoots the whole rise.
proof fn lemma_boundary_rise(lead: int, rise: int, run: int, q0: int, q: int, m: int)
    requires
        0 <= lead,
        0 < rise,
        0 < run,
        0 <= q0,
        0 <= q,
        0 <= m,
        q0 * run <= lead * rise,
        q * run <= 256 * rise,
        lead + m * 256 <= run,
    ensures
        q0 + m * q <= rise,
{
    assert((q0 + m * q) * run <= run * rise) by (nonlinear_arith)
        requires
            0 <= m,
            0 < rise,
            q0 * run <= lead * rise,
            q * run <= 256 * rise,
            lead + m * 256 <= run,
    {
        assert(m * (q * run) <= m * (256 * rise));
        assert((lead + m * 256) * rise <= run * rise);
        assert((q0 + m * q) * run == q0 * run + m * (q * run));
        assert((lead + m * 256) * rise == lead * rise + m * (256 * rise));
    }
    assert(q0 + m * q <= rise) by (nonlinear_arith)
        requires
            (q0 + m * q) * run <= run * rise,
            0 < run,
    ;
}

/// The heights covered in single columns add up to those covered through a
/// column.
pub proof fn lemma_cover_through_step(s: Span, col: int)
    requires
        s.wf(),
    ensures
        s.cover_through(col) == s.cover_through(col - 1) + s.cover(col),
{
}

/// Bounds of what a span contributes to one column.
pub proof fn lemma_span_bounds(s: Span, col: int)
    requires
        s.wf(),
    ensures
        0 <= s.cover(col) <= s.cover_through(col) <= s.rise() <= 256,
        0 <= s.area(col) <= 512 * s.cover(col),
{
    lemma_levels(s);
    let k = s.step(col);
    if s.leftmost() <= col <= s.rightmost() {
        assert(s.y_in(k) <= s.y_out(k));
        let w = s.x_in(k) + s.x_out(k);
        let c = s.cover(col);
        assert(0 <= w * c <= 512 * c) by (nonlinear_arith)
            requires
                0 <= w <= 512,
                0 <= c,
        ;
    }
    if s.leftmost() <= col < s.rightmost() {
        assert(s.ya <= s.y_in(k) <= s.y_out(k) <= s.yb);
    }
}

/// The span of an edge in a row that it meets makes progress.
pub proof fn lemma_span_wf(e: Edge, top: int)
    requires
        e.wf(),
        e.meets(top),
    ensures
        e.span(top).wf(),
        fixed::in_i32(e.span(top).xa),
        fixed::in_i32(e.span(top).xb),
{
    lemma_x_at(e, fixed::max(e.yl as int, top));
    lemma_x_at(e, fixed::min(e.yh as int, top + 256));
}

} // verus!
