//! Properties of the rasterizer as a whole.
//!
//! Each proof function states one property of what [`Raster`] draws, over the
//! functions that its contracts use.
//!
//! [`Raster`]: crate::raster::Raster
use crate::edge;
use crate::edge::{Edge, Span};
use crate::fixed;
use crate::outline::Outline;
use crate::scene;
use crate::scene::Extents;
use crate::shade;
use crate::sum;
use crate::sweep;
use vstd::prelude::*;

verus! {

/// Cover carried into pixel column `col` by all edges.
pub open spec fn carried_cover(edges: Seq<Edge>, top: int, col: int) -> int {
    sum::sum(edges.len() as int, |i: int| edges[i].cover_through(top, col))
}

/// The byte of the pixel in device column `col` and device row `line`,
/// wherever the output lies.
pub open spec fn device_pixel(edges: Seq<Edge>, line: int, col: int) -> int {
    fixed::alpha_byte(
        shade::cell_alpha(
            carried_cover(edges, line * 256, col),
            scene::total_area(edges, line * 256, col),
        ),
    )
}

/// The cover accumulated through an output column is what the edges carry
/// into it, left of the output or not.
pub proof fn lemma_accumulated_is_carried(edges: Seq<Edge>, ext: Extents, row: int, c: int)
    requires
        scene::all_wf(edges),
        0 <= c < ext.width,
    ensures
        scene::accumulated_cover(edges, ext.x0 as int, ext.row_top(row), c) == carried_cover(
            edges,
            ext.row_top(row),
            ext.x0 + c,
        ),
    decreases c,
{
    let n = edges.len() as int;
    let top = ext.row_top(row);
    let x0 = ext.x0 as int;
    let here = |i: int| edges[i].cover_through(top, x0 + c);
    let before = |i: int| edges[i].cover_through(top, x0 + (c - 1));
    let column = |i: int| scene::edge_column_cover(edges[i], x0, top, c);
    if c == 0 {
        assert(scene::accumulated_cover(edges, x0, top, -1) == 0);
        sum::lemma_sum_eq(n, column, here);
    } else {
        lemma_accumulated_is_carried(edges, ext, row, c - 1);
        assert forall|i: int| 0 <= i < n implies #[trigger] here(i) == before(i) + column(i) by {
            scene::lemma_edge_bounds(edges[i], top, x0 + c);
            assert(x0 + (c - 1) == x0 + c - 1);
        }
        sum::lemma_sum_add(n, before, column, here);
    }
}

/// A pixel's value does not depend on the output extents: geometry outside of
/// them is clipped, and what lies to their left still winds around what is
/// visible.
pub proof fn law_clipping(edges: Seq<Edge>, ext: Extents, row: int, c: int)
    requires
        scene::all_wf(edges),
        0 <= row < ext.height,
        0 <= c < ext.width,
    ensures
        scene::pixel(edges, ext, row, c) == device_pixel(edges, ext.y0 + row, ext.x0 + c),
{
    lemma_accumulated_is_carried(edges, ext, row, c);
}

/// Two outputs agree on every pixel that both of them hold.
pub proof fn law_windows_agree(
    edges: Seq<Edge>,
    ext1: Extents,
    row1: int,
    c1: int,
    ext2: Extents,
    row2: int,
    c2: int,
)
    requires
        scene::all_wf(edges),
        0 <= row1 < ext1.height,
        0 <= c1 < ext1.width,
        0 <= row2 < ext2.height,
        0 <= c2 < ext2.width,
        ext1.y0 + row1 == ext2.y0 + row2,
        ext1.x0 + c1 == ext2.x0 + c2,
    ensures
        scene::pixel(edges, ext1, row1, c1) == scene::pixel(edges, ext2, row2, c2),
{
    law_clipping(edges, ext1, row1, c1);
    law_clipping(edges, ext2, row2, c2);
}

/// Every pixel is a byte.
pub proof fn law_pixels_are_bytes(edges: Seq<Edge>, ext: Extents, row: int, c: int)
    ensures
        0 <= scene::pixel(edges, ext, row, c) <= 255,
{
}

/// Scaling an alpha to a byte keeps the ends of the scale, keeps order, and is
/// off by at most half a step.
pub proof fn law_alpha_scale(a: int, b: int)
    requires
        0 <= a <= b,
    ensures
        fixed::alpha_byte(0) == 0,
        fixed::alpha_byte(fixed::FULL_COVERAGE as int) == 255,
        fixed::alpha_byte(a) <= fixed::alpha_byte(b),
        2 * fixed::abs(fixed::alpha_byte(a) * fixed::FULL_COVERAGE - a * 255)
            <= fixed::FULL_COVERAGE,
{
}

/// Closing a contour a second time changes nothing, so a path draws the same
/// whether its last contour was closed or not.
pub proof fn law_close_twice(o: Outline)
    ensures
        o.closed().closed() == o.closed(),
        o.closed().move_to(o.start).edges == o.move_to(o.start).edges,
{
    assert(o.closed().closed() =~= o.closed());
}

/// The edge moved by `dx` pixel columns and `dy` pixel rows.
pub open spec fn moved(e: Edge, dx: int, dy: int) -> Edge {
    Edge {
        xl: (e.xl + 256 * dx) as i32,
        yl: (e.yl + 256 * dy) as i32,
        xh: (e.xh + 256 * dx) as i32,
        yh: (e.yh + 256 * dy) as i32,
        ..e
    }
}

/// The edge can be moved without leaving the coordinate range.
pub open spec fn can_move(e: Edge, dx: int, dy: int) -> bool {
    &&& fixed::in_i32(e.xl + 256 * dx)
    &&& fixed::in_i32(e.yl + 256 * dy)
    &&& fixed::in_i32(e.xh + 256 * dx)
    &&& fixed::in_i32(e.yh + 256 * dy)
}

/// Moving a span by whole pixels moves what it covers.
proof fn lemma_moved_span(s: Span, t: Span, dx: int, col: int)
    requires
        t.xa == s.xa + 256 * dx,
        t.xb == s.xb + 256 * dx,
        t.ya == s.ya,
        t.yb == s.yb,
    ensures
        t.area(col + dx) == s.area(col),
        t.cover(col + dx) == s.cover(col),
        t.cover_through(col + dx) == s.cover_through(col),
{
    assert(t.first() == s.first() + dx);
    assert(t.last() == s.last() + dx);
    assert(t.xa % 256 == s.xa % 256);
    assert(t.xb % 256 == s.xb % 256);
    assert(t.lead() == s.lead());
    assert(t.run() == s.run());
    assert(t.rise() == s.rise());
    assert(t.steps() == s.steps());
    let k = s.step(col);
    assert(t.step(col + dx) == k);
    assert(t.y_in(k) == s.y_in(k));
    assert(t.y_in(k + 1) == s.y_in(k + 1));
    assert(t.y_out(k) == s.y_out(k));
    assert(t.x_in(k) == s.x_in(k));
    assert(t.x_out(k) == s.x_out(k));
}

/// Moving an edge by whole pixels moves what it adds to each cell.
proof fn lemma_moved_edge(e: Edge, dx: int, dy: int, top: int, col: int)
    requires
        can_move(e, dx, dy),
    ensures
        moved(e, dx, dy).area(top + 256 * dy, col + dx) == e.area(top, col),
        moved(e, dx, dy).cover(top + 256 * dy, col + dx) == e.cover(top, col),
        moved(e, dx, dy).cover_through(top + 256 * dy, col + dx) == e.cover_through(top, col),
{
    let m = moved(e, dx, dy);
    let ya = fixed::max(e.yl as int, top);
    let yb = fixed::min(e.yh as int, top + 256);
    assert(m.meets(top + 256 * dy) == e.meets(top));
    assert(ya + 256 * dy - m.yl == ya - e.yl);
    assert(yb + 256 * dy - m.yl == yb - e.yl);
    assert(m.x_at(ya + 256 * dy) == e.x_at(ya) + 256 * dx);
    assert(m.x_at(yb + 256 * dy) == e.x_at(yb) + 256 * dx);
    lemma_moved_span(e.span(top), m.span(top + 256 * dy), dx, col);
}

/// Moving the geometry and the output extents together by whole pixels leaves
/// the output unchanged: the origin of the extents translates the output.
pub proof fn law_translation(
    edges: Seq<Edge>,
    dx: int,
    dy: int,
    ext1: Extents,
    ext2: Extents,
    row: int,
    c: int,
)
    requires
        forall|i: int| 0 <= i < edges.len() ==> can_move(#[trigger] edges[i], dx, dy),
        ext2.x0 == ext1.x0 + dx,
        ext2.y0 == ext1.y0 + dy,
    ensures
        scene::pixel(edges.map_values(|e: Edge| moved(e, dx, dy)), ext2, row, c) == scene::pixel(
            edges,
            ext1,
            row,
            c,
        ),
{
    let after = edges.map_values(|e: Edge| moved(e, dx, dy));
    let n = edges.len() as int;
    let top1 = ext1.row_top(row);
    let top2 = ext2.row_top(row);
    assert(top2 == top1 + 256 * dy);
    let f1 = |i: int| edges[i].area(top1, ext1.x0 + c);
    let f2 = |i: int| after[i].area(top2, ext2.x0 + c);
    assert forall|i: int| 0 <= i < n implies #[trigger] f2(i) == f1(i) by {
        lemma_moved_edge(edges[i], dx, dy, top1, ext1.x0 + c);
        assert(ext1.x0 + c + dx == ext2.x0 + c);
    }
    sum::lemma_sum_eq(n, f2, f1);
    lemma_moved_accumulation(edges, dx, dy, ext1, ext2, row, c);
}

proof fn lemma_moved_accumulation(
    edges: Seq<Edge>,
    dx: int,
    dy: int,
    ext1: Extents,
    ext2: Extents,
    row: int,
    c: int,
)
    requires
        forall|i: int| 0 <= i < edges.len() ==> can_move(#[trigger] edges[i], dx, dy),
        ext2.x0 == ext1.x0 + dx,
        ext2.y0 == ext1.y0 + dy,
    ensures
        scene::accumulated_cover(
            edges.map_values(|e: Edge| moved(e, dx, dy)),
            ext2.x0 as int,
            ext2.row_top(row),
            c,
        ) == scene::accumulated_cover(edges, ext1.x0 as int, ext1.row_top(row), c),
    decreases c + 1,
{
    if c >= 0 {
        lemma_moved_accumulation(edges, dx, dy, ext1, ext2, row, c - 1);
        let after = edges.map_values(|e: Edge| moved(e, dx, dy));
        let n = edges.len() as int;
        let top1 = ext1.row_top(row);
        let top2 = ext2.row_top(row);
        let x1 = ext1.x0 as int;
        let x2 = ext2.x0 as int;
        assert(top2 == top1 + 256 * dy);
        let f1 = |i: int| scene::edge_column_cover(edges[i], x1, top1, c);
        let f2 = |i: int| scene::edge_column_cover(after[i], x2, top2, c);
        assert forall|i: int| 0 <= i < n implies #[trigger] f2(i) == f1(i) by {
            lemma_moved_edge(edges[i], dx, dy, top1, x1 + c);
            assert(x1 + c + dx == x2 + c);
        }
        sum::lemma_sum_eq(n, f2, f1);
    }
}

/// The edge drawn in the opposite direction.
pub open spec fn reversed(e: Edge) -> Edge {
    Edge { wind: (-e.wind) as i32, ..e }
}

/// A segment drawn from its other end has the same edge in the opposite
/// direction.
pub proof fn law_segment_reversed(x0: i32, y0: i32, x1: i32, y1: i32)
    requires
        y0 != y1,
    ensures
        Edge::spec_between(x1, y1, x0, y0) == reversed(Edge::spec_between(x0, y0, x1, y1)),
{
}

/// Drawing all contours in the opposite direction leaves the output unchanged.
pub proof fn law_direction(edges: Seq<Edge>, ext: Extents, row: int, c: int)
    requires
        scene::all_wf(edges),
        0 <= row < ext.height,
        0 <= c < ext.width,
    ensures
        scene::pixel(edges.map_values(|e: Edge| reversed(e)), ext, row, c) == scene::pixel(
            edges,
            ext,
            row,
            c,
        ),
{
    let after = edges.map_values(|e: Edge| reversed(e));
    let n = edges.len() as int;
    let top = ext.row_top(row);
    let x0 = ext.x0 as int;
    assert forall|i: int, col: int| 0 <= i < n implies {
        &&& #[trigger] after[i].area(top, col) == -edges[i].area(top, col)
        &&& after[i].cover(top, col) == -edges[i].cover(top, col)
        &&& after[i].cover_through(top, col) == -edges[i].cover_through(top, col)
    } by {
        assert(after[i].meets(top) == edges[i].meets(top));
        assert(after[i].span(top) == edges[i].span(top));
        let s = edges[i].span(top);
        let w = edges[i].wind as int;
        assert(after[i].wind == -w);
        assert(s.area(col) * -w == -(s.area(col) * w)) by (nonlinear_arith);
        assert(s.cover(col) * -w == -(s.cover(col) * w)) by (nonlinear_arith);
        assert(s.cover_through(col) * -w == -(s.cover_through(col) * w)) by (nonlinear_arith);
    }
    assert(scene::all_wf(after));
    law_clipping(edges, ext, row, c);
    law_clipping(after, ext, row, c);
    let col = ext.x0 + c;
    assert(top == (ext.y0 + row) * 256);
    let f = |i: int| edges[i].area(top, col);
    let g = |i: int| after[i].area(top, col);
    assert forall|i: int| 0 <= i < n implies #[trigger] g(i) == -f(i) by {}
    sum::lemma_sum_neg(n, f, g);
    let p = |i: int| edges[i].cover_through(top, col);
    let q = |i: int| after[i].cover_through(top, col);
    assert forall|i: int| 0 <= i < n implies #[trigger] q(i) == -p(i) by {
        assert(after[i].area(top, col) == -edges[i].area(top, col));
    }
    sum::lemma_sum_neg(n, p, q);
}

/// In the row at `top` the edge lies left of pixel column `col`, or on the
/// column's left side.
pub open spec fn lies_left(e: Edge, top: int, col: int) -> bool {
    &&& e.meets(top)
    &&& e.span(top).xa <= col * 256
    &&& e.span(top).xb <= col * 256
}

/// In the row at `top` the edge passes pixel column `col` by: it lies right of
/// the column, or it crosses the whole row left of the column.
pub open spec fn passes_by(e: Edge, top: int, col: int) -> bool {
    e.meets(top) ==> {
        ||| col < e.span(top).leftmost()
        ||| lies_left(e, top, col) && e.yl <= top && top + 256 <= e.yh
    }
}

/// How often the edges wind around pixel column `col` of the row at `top`.
pub open spec fn winding_number(edges: Seq<Edge>, top: int, col: int) -> int {
    sum::sum(
        edges.len() as int,
        |i: int|
            if lies_left(edges[i], top, col) {
                edges[i].wind as int
            } else {
                0
            },
    )
}

/// What an edge that passes by adds to a cell: no area, and a full row of cover
/// if it lies left of the cell.
proof fn lemma_passing_edge(e: Edge, top: int, col: int)
    requires
        e.wf(),
        passes_by(e, top, col),
    ensures
        e.area(top, col) == 0,
        e.cover_through(top, col) == 256 * if lies_left(e, top, col) {
            e.wind as int
        } else {
            0
        },
{
    if lies_left(e, top, col) {
        let s = e.span(top);
        if s.rightmost() == col {
            let k = s.step(col);
            assert(s.x_in(k) == 0 && s.x_out(k) == 0);
            assert(0 * s.cover(col) == 0) by (nonlinear_arith);
        }
        assert(s.area(col) == 0);
    }
}

/// The non-zero winding rule: a pixel that no edge touches is opaque if the
/// edges wind around it, in whichever direction and however often, and blank
/// if they do not.
pub proof fn law_nonzero_winding(edges: Seq<Edge>, ext: Extents, row: int, c: int)
    requires
        scene::all_wf(edges),
        0 <= row < ext.height,
        0 <= c < ext.width,
        forall|i: int|
            0 <= i < edges.len() ==> passes_by(
                #[trigger] edges[i],
                ext.row_top(row),
                ext.x0 + c,
            ),
    ensures
        scene::pixel(edges, ext, row, c) == if winding_number(
            edges,
            ext.row_top(row),
            ext.x0 + c,
        ) == 0 {
            0int
        } else {
            255
        },
{
    let n = edges.len() as int;
    let top = ext.row_top(row);
    let col = ext.x0 + c;
    law_clipping(edges, ext, row, c);
    assert(top == (ext.y0 + row) * 256);
    let area = |i: int| edges[i].area(top, col);
    let carried = |i: int| edges[i].cover_through(top, col);
    let winds = |i: int|
        if lies_left(edges[i], top, col) {
            edges[i].wind as int
        } else {
            0
        };
    assert forall|i: int| 0 <= i < n implies #[trigger] area(i) == 0 by {
        lemma_passing_edge(edges[i], top, col);
    }
    assert forall|i: int| 0 <= i < n implies #[trigger] carried(i) == 256 * winds(i) by {
        lemma_passing_edge(edges[i], top, col);
    }
    sum::lemma_sum_zero(n, area);
    sum::lemma_sum_scale(n, winds, carried, 256);
}

/// The path of the rectangle with the given sides, drawn as one contour.
pub open spec fn rectangle(xa: i32, ya: i32, xb: i32, yb: i32) -> Outline {
    Outline::empty().move_to((xa, ya)).line_to((xb, ya)).line_to((xb, yb)).line_to(
        (xa, yb),
    ).closed()
}

/// Length of the overlap of `a ..= b` with the pixel that starts at `p`.
pub open spec fn overlap(a: int, b: int, p: int) -> int {
    fixed::clamp(b, p, p + 256) - fixed::clamp(a, p, p + 256)
}

/// What an upright edge adds to a cell: twice the area to its right.
pub proof fn lemma_upright_edge(e: Edge, top: int, col: int)
    requires
        e.wf(),
        e.xl == e.xh,
    ensures
        512 * e.cover_through(top, col) - e.area(top, col) == 2 * (overlap(
            e.yl as int,
            e.yh as int,
            top,
        ) * (col * 256 + 256 - fixed::clamp(e.xl as int, col * 256, col * 256 + 256))) * e.wind,
        e.meets(top) <==> overlap(e.yl as int, e.yh as int, top) > 0,
{
    let d = e.yh - e.yl;
    assert(e.slope == 0) by {
        assert((e.xh - e.xl) * 65536 == 0);
        vstd::arithmetic::div_mod::lemma_div_of0(d);
    }
    let h = overlap(e.yl as int, e.yh as int, top);
    let x = e.xl as int;
    let w = e.wind as int;
    if e.meets(top) {
        let s = e.span(top);
        let ya = fixed::max(e.yl as int, top);
        let yb = fixed::min(e.yh as int, top + 256);
        assert((ya - e.yl) * 0 == 0) by (nonlinear_arith);
        assert((yb - e.yl) * 0 == 0) by (nonlinear_arith);
        assert(s.xa == x && s.xb == x);
        assert(s.rise() == h);
        assert(s.steps() == 0);
        if col < x / 256 {
            assert(h * 0 == 0 && 0 * w == 0) by (nonlinear_arith);
            assert(fixed::clamp(x, col * 256, col * 256 + 256) == col * 256 + 256);
        } else if col == x / 256 {
            let f = x % 256;
            assert(fixed::clamp(x, col * 256, col * 256 + 256) == col * 256 + f);
            assert(s.area(col) == (f + f) * h);
            assert(512 * (h * w) - (f + f) * h * w == 2 * (h * (256 - f)) * w)
                by (nonlinear_arith);
        } else {
            assert(fixed::clamp(x, col * 256, col * 256 + 256) == col * 256);
            assert(s.area(col) == 0);
            assert(0 * w == 0) by (nonlinear_arith);
            assert(512 * (h * w) == 2 * (h * 256) * w) by (nonlinear_arith);
        }
    } else {
        assert(h == 0);
        let r = col * 256 + 256 - fixed::clamp(x, col * 256, col * 256 + 256);
        assert(2 * (0 * r) * w == 0) by (nonlinear_arith);
    }
}

/// The edges of a rectangle are its two upright sides.
proof fn lemma_rectangle_edges(xa: i32, ya: i32, xb: i32, yb: i32)
    requires
        ya < yb,
    ensures
        rectangle(xa, ya, xb, yb).edges == seq![
            Edge::spec_between(xb, ya, xb, yb),
            Edge::spec_between(xa, yb, xa, ya),
        ],
        Edge::spec_between(xb, ya, xb, yb).wf(),
        Edge::spec_between(xa, yb, xa, ya).wf(),
{
    assert((xb - xb) * 65536 == 0 && (xa - xa) * 65536 == 0);
    vstd::arithmetic::div_mod::lemma_div_of0(yb - ya);
    assert(rectangle(xa, ya, xb, yb).edges =~= seq![
        Edge::spec_between(xb, ya, xb, yb),
        Edge::spec_between(xa, yb, xa, ya),
    ]);
}

/// Coverage is analytic: a pixel's alpha on an axis-aligned rectangle is
/// exactly twice the area of their overlap.
pub proof fn law_rectangle_coverage(
    xa: i32,
    ya: i32,
    xb: i32,
    yb: i32,
    ext: Extents,
    row: int,
    c: int,
)
    requires
        xa <= xb,
        ya <= yb,
        0 <= row < ext.height,
        0 <= c < ext.width,
    ensures
        scene::pixel(rectangle(xa, ya, xb, yb).edges, ext, row, c) == fixed::alpha_byte(
            2 * (overlap(xa as int, xb as int, (ext.x0 + c) * 256) * overlap(
                ya as int,
                yb as int,
                ext.row_top(row),
            )),
        ),
{
    let edges = rectangle(xa, ya, xb, yb).edges;
    let top = ext.row_top(row);
    let col = ext.x0 + c;
    let ox = overlap(xa as int, xb as int, col * 256);
    let oy = overlap(ya as int, yb as int, top);
    assert(top == (ext.y0 + row) * 256);
    if ya == yb {
        assert(edges =~= Seq::<Edge>::empty());
        law_clipping(edges, ext, row, c);
        assert(ox * 0 == 0) by (nonlinear_arith);
    } else {
        lemma_rectangle_edges(xa, ya, xb, yb);
        let right = edges[0];
        let left = edges[1];
        law_clipping(edges, ext, row, c);
        let area = |i: int| edges[i].area(top, col);
        let carried = |i: int| edges[i].cover_through(top, col);
        assert(sum::sum(2, area) == sum::sum(1, area) + area(1));
        assert(sum::sum(1, area) == sum::sum(0, area) + area(0));
        assert(sum::sum(2, carried) == sum::sum(1, carried) + carried(1));
        assert(sum::sum(1, carried) == sum::sum(0, carried) + carried(0));
        lemma_upright_edge(right, top, col);
        lemma_upright_edge(left, top, col);
        let ra = col * 256 + 256 - fixed::clamp(xa as int, col * 256, col * 256 + 256);
        let rb = col * 256 + 256 - fixed::clamp(xb as int, col * 256, col * 256 + 256);
        assert(ra - rb == ox);
        assert(2 * (oy * rb) * 1 + 2 * (oy * ra) * -1 == -(2 * (ox * oy))) by (nonlinear_arith)
            requires
                ra - rb == ox,
        ;
        assert(0 <= ox * oy <= 65536) by (nonlinear_arith)
            requires
                0 <= ox <= 256,
                0 <= oy <= 256,
        ;
    }
}

/// Geometry above, below or right of the output does not show in it.
pub proof fn law_unseen_geometry(edges: Seq<Edge>, e: Edge, ext: Extents, row: int, c: int)
    requires
        e.wf(),
        0 <= row < ext.height,
        0 <= c < ext.width,
        e.yh <= ext.y0 * 256 || (ext.y0 + ext.height) * 256 <= e.yl || (ext.x0 + ext.width) * 256
            <= fixed::min(e.xl as int, e.xh as int),
    ensures
        scene::pixel(edges.push(e), ext, row, c) == scene::pixel(edges, ext, row, c),
{
    let top = ext.row_top(row);
    assert forall|k: int| k < ext.width implies {
        &&& #[trigger] e.area(top, ext.x0 + k) == 0
        &&& e.cover(top, ext.x0 + k) == 0
        &&& e.cover_through(top, ext.x0 + k) == 0
    } by {
        if e.meets(top) {
            edge::lemma_x_at(e, fixed::max(e.yl as int, top));
            edge::lemma_x_at(e, fixed::min(e.yh as int, top + 256));
        }
    }
    assert(e.area(top, ext.x0 + c) == 0);
    sum::lemma_sum_eq(
        edges.len() as int,
        |i: int| edges.push(e)[i].area(top, ext.x0 + c),
        |i: int| edges[i].area(top, ext.x0 + c),
    );
    lemma_unseen_cover(edges, e, ext, top, c);
}

proof fn lemma_unseen_cover(edges: Seq<Edge>, e: Edge, ext: Extents, top: int, c: int)
    requires
        c < ext.width,
        forall|k: int|
            k < ext.width ==> {
                &&& #[trigger] e.area(top, ext.x0 + k) == 0
                &&& e.cover(top, ext.x0 + k) == 0
                &&& e.cover_through(top, ext.x0 + k) == 0
            },
    ensures
        scene::accumulated_cover(edges.push(e), ext.x0 as int, top, c) == scene::accumulated_cover(
            edges,
            ext.x0 as int,
            top,
            c,
        ),
    decreases c + 1,
{
    if c >= 0 {
        lemma_unseen_cover(edges, e, ext, top, c - 1);
        assert(e.area(top, ext.x0 + c) == 0);
        sum::lemma_sum_eq(
            edges.len() as int,
            |i: int| scene::edge_column_cover(edges.push(e)[i], ext.x0 as int, top, c),
            |i: int| scene::edge_column_cover(edges[i], ext.x0 as int, top, c),
        );
    }
}

/// Geometry left of the output cuts off no area of it, but its whole height
/// still counts toward the winding of the first column.
pub proof fn law_geometry_left_of_output(e: Edge, ext: Extents, row: int, c: int)
    requires
        e.wf(),
        fixed::max(e.xl as int, e.xh as int) < ext.x0 * 256,
        0 <= row < ext.height,
        0 <= c < ext.width,
    ensures
        e.area(ext.row_top(row), ext.x0 + c) == 0,
        scene::edge_column_cover(e, ext.x0 as int, ext.row_top(row), c) == if c == 0 {
            overlap(e.yl as int, e.yh as int, ext.row_top(row)) * e.wind
        } else {
            0
        },
{
    let top = ext.row_top(row);
    if e.meets(top) {
        edge::lemma_x_at(e, fixed::max(e.yl as int, top));
        edge::lemma_x_at(e, fixed::min(e.yh as int, top + 256));
    } else {
        assert(overlap(e.yl as int, e.yh as int, top) == 0);
    }
}

/// Within its vertical extent, an edge stays inside of the extents of the
/// geometry that it belongs to.
pub proof fn law_extents_hold_geometry(edges: Seq<Edge>, ext: Extents, i: int, y: int)
    requires
        scene::all_wf(edges),
        scene::bounds(edges, ext),
        0 <= i < edges.len(),
        edges[i].yl <= y <= edges[i].yh,
    ensures
        ext.y0 * 256 <= y <= (ext.y0 + ext.height) * 256,
        ext.x0 * 256 <= edges[i].x_at(y) <= (ext.x0 + ext.width) * 256,
{
    edge::lemma_x_at(edges[i], y);
    assert(ext.x0 <= scene::left_of(edges[i]));
}

/// The heights that an edge covers in the columns of a row add up to its
/// height in the row.
pub proof fn law_cover_is_conserved(e: Edge, top: int, col: int)
    requires
        e.wf(),
    ensures
        e.cover_through(top, col) == e.cover_through(top, col - 1) + e.cover(top, col),
        e.meets(top) && e.span(top).rightmost() <= col ==> e.cover_through(top, col) == overlap(
            e.yl as int,
            e.yh as int,
            top,
        ) * e.wind,
        e.meets(top) && col < e.span(top).leftmost() ==> e.cover_through(top, col) == 0,
{
    scene::lemma_edge_bounds(e, top, col);
}

/// The area of two groups of edges.
proof fn lemma_area_concat(a: Seq<Edge>, b: Seq<Edge>, top: int, col: int)
    ensures
        scene::total_area(a + b, top, col) == scene::total_area(a, top, col) + scene::total_area(
            b,
            top,
            col,
        ),
{
    sum::lemma_sum_concat(
        a.len() as int,
        b.len() as int,
        |i: int| a[i].area(top, col),
        |i: int| b[i].area(top, col),
        |i: int| (a + b)[i].area(top, col),
    );
}

/// The accumulated cover of two groups of edges.
proof fn lemma_cover_concat(a: Seq<Edge>, b: Seq<Edge>, x0: int, top: int, c: int)
    ensures
        scene::accumulated_cover(a + b, x0, top, c) == scene::accumulated_cover(a, x0, top, c)
            + scene::accumulated_cover(b, x0, top, c),
    decreases c + 1,
{
    if c >= 0 {
        lemma_cover_concat(a, b, x0, top, c - 1);
        sum::lemma_sum_concat(
            a.len() as int,
            b.len() as int,
            |i: int| scene::edge_column_cover(a[i], x0, top, c),
            |i: int| scene::edge_column_cover(b[i], x0, top, c),
            |i: int| scene::edge_column_cover((a + b)[i], x0, top, c),
        );
    }
}

/// The order in which contours are drawn does not matter.
pub proof fn law_contour_order(a: Seq<Edge>, b: Seq<Edge>, ext: Extents, row: int, c: int)
    ensures
        scene::pixel(a + b, ext, row, c) == scene::pixel(b + a, ext, row, c),
{
    let top = ext.row_top(row);
    lemma_area_concat(a, b, top, ext.x0 + c);
    lemma_area_concat(b, a, top, ext.x0 + c);
    lemma_cover_concat(a, b, ext.x0 as int, top, c);
    lemma_cover_concat(b, a, ext.x0 as int, top, c);
}

/// The edges of a path that is drawn `n` times.
pub open spec fn repeated(edges: Seq<Edge>, n: nat) -> Seq<Edge>
    decreases n,
{
    if n == 0 {
        Seq::empty()
    } else {
        repeated(edges, (n - 1) as nat) + edges
    }
}

/// A repeated path multiplies the sums of each cell.
proof fn lemma_repeated(edges: Seq<Edge>, n: nat, x0: int, top: int, c: int)
    ensures
        scene::total_area(repeated(edges, n), top, x0 + c) == n * scene::total_area(
            edges,
            top,
            x0 + c,
        ),
        scene::accumulated_cover(repeated(edges, n), x0, top, c) == n * scene::accumulated_cover(
            edges,
            x0,
            top,
            c,
        ),
    decreases n,
{
    let area = scene::total_area(edges, top, x0 + c);
    let cover = scene::accumulated_cover(edges, x0, top, c);
    if n == 0 {
        scene::lemma_no_cover(repeated(edges, n), x0, top, c);
        assert(n * area == 0 && n * cover == 0) by (nonlinear_arith)
            requires
                n == 0,
        ;
    } else {
        let m = (n - 1) as nat;
        lemma_repeated(edges, m, x0, top, c);
        lemma_area_concat(repeated(edges, m), edges, top, x0 + c);
        lemma_cover_concat(repeated(edges, m), edges, x0, top, c);
        assert(n * area == m * area + area) by (nonlinear_arith)
            requires
                n == m + 1,
        ;
        assert(n * cover == m * cover + cover) by (nonlinear_arith)
            requires
                n == m + 1,
        ;
    }
}

/// Overlap in the same direction neither cancels out nor covers a pixel twice:
/// a path drawn any number of times covers a pixel by that many times its
/// alpha, up to full coverage.
pub proof fn law_overlap_accumulates(edges: Seq<Edge>, n: nat, ext: Extents, row: int, c: int)
    requires
        n > 0,
    ensures
        scene::pixel(repeated(edges, n), ext, row, c) >= scene::pixel(edges, ext, row, c),
        scene::pixel(repeated(edges, n), ext, row, c) == fixed::alpha_byte(
            fixed::min(
                n * shade::cell_alpha(
                    scene::accumulated_cover(edges, ext.x0 as int, ext.row_top(row), c),
                    scene::total_area(edges, ext.row_top(row), ext.x0 + c),
                ),
                fixed::FULL_COVERAGE as int,
            ),
        ),
{
    let top = ext.row_top(row);
    let area = scene::total_area(edges, top, ext.x0 + c);
    let cover = scene::accumulated_cover(edges, ext.x0 as int, top, c);
    let v = 512 * cover - area;
    lemma_repeated(edges, n, ext.x0 as int, top, c);
    assert(512 * (n * cover) - n * area == n * v) by (nonlinear_arith)
        requires
            v == 512 * cover - area,
    ;
    assert(fixed::abs(n * v) == n * fixed::abs(v)) by (nonlinear_arith)
        requires
            n > 0,
    ;
    let alpha = shade::cell_alpha(cover, area);
    assert(n * fixed::abs(v) >= fixed::abs(v) && n * 131072 >= 131072) by (nonlinear_arith)
        requires
            n > 0,
    ;
    assert(n * alpha >= alpha) by (nonlinear_arith)
        requires
            n > 0,
            alpha >= 0,
    ;
}

/// The height at which a span enters its `k`-th column lies at or above the
/// exact crossing, by less than one sub-pixel unit per column crossed.
pub proof fn law_crossing_accuracy(s: Span, k: int)
    requires
        s.wf(),
        1 <= k <= s.steps(),
    ensures
        0 <= (s.lead() + 256 * (k - 1)) * s.rise() - (s.y_in(k) - s.ya) * s.run() < k * s.run(),
{
    edge::lemma_levels(s);
    let run = s.run();
    let rise = s.rise();
    let lead = s.lead();
    let q0 = lead * rise / run;
    let q = 256 * rise / run;
    vstd::arithmetic::div_mod::lemma_fundamental_div_mod(lead * rise, run);
    vstd::arithmetic::div_mod::lemma_fundamental_div_mod(256 * rise, run);
    let r0 = (lead * rise) % run;
    let r = (256 * rise) % run;
    let m = k - 1;
    assert((lead + 256 * m) * rise - (q0 + m * q) * run == r0 + m * r) by (nonlinear_arith)
        requires
            lead * rise == run * q0 + r0,
            256 * rise == run * q + r,
    {
        assert((lead + 256 * m) * rise == lead * rise + m * (256 * rise));
        assert(m * (run * q + r) == m * (run * q) + m * r);
        assert((q0 + m * q) * run == run * q0 + m * (run * q));
    }
    assert(0 <= r0 + m * r < k * run) by (nonlinear_arith)
        requires
            0 <= r0 < run,
            0 <= r < run,
            0 <= m,
            k == m + 1,
    ;
}

/// Twice the integral, over all positions right of `x`, of how much of pixel
/// column `col` lies right of the position.
pub open spec fn column_beyond(col: int, x: int) -> int {
    let right = (col + 1) * 256;
    if x >= right {
        0
    } else if x >= right - 256 {
        (right - x) * (right - x)
    } else {
        65536 + 512 * (right - 256 - x)
    }
}

/// Twice the exact area of pixel column `col` right of the straight line
/// through the ends of a span, times the width of the span.
pub open spec fn exact_area(s: Span, col: int) -> int {
    s.rise() * (column_beyond(col, fixed::min(s.xa, s.xb)) - column_beyond(
        col,
        fixed::max(s.xa, s.xb),
    ))
}

/// Horizontal distance from the entry of a span to where step `k` enters its
/// column.
spec fn distance(s: Span, k: int) -> int {
    if k <= 0 {
        0
    } else if k > s.steps() {
        s.run()
    } else {
        s.lead() + 256 * (k - 1)
    }
}

/// The exact area of a column as a trapezoid and what lies beside it.
proof fn lemma_exact_column(s: Span, col: int)
    requires
        s.leftmost() <= col <= s.rightmost(),
    ensures
        ({
            let k = s.step(col);
            let w = s.x_in(k) + s.x_out(k);
            let d = distance(s, k + 1) - distance(s, k);
            column_beyond(col, fixed::min(s.xa, s.xb)) - column_beyond(
                col,
                fixed::max(s.xa, s.xb),
            ) == if s.xa <= s.xb {
                512 * distance(s, k + 1) - w * d
            } else {
                512 * (s.run() - distance(s, k)) - w * d
            }
        }),
{
    let k = s.step(col);
    let w = s.x_in(k) + s.x_out(k);
    let d = distance(s, k + 1) - distance(s, k);
    let left = col * 256;
    let xl = fixed::min(s.xa, s.xb);
    let xr = fixed::max(s.xa, s.xb);
    // The ends of the part of the segment inside of the column, from its left
    // side.
    let a = fixed::max(xl, left) - left;
    let b = fixed::min(xr, left + 256) - left;
    assert(0 <= a <= b <= 256);
    assert(d == b - a);
    assert(w == a + b);
    assert((512 - w) * d == (256 - a) * (256 - a) - (256 - b) * (256 - b)) by (nonlinear_arith)
        requires
            d == b - a,
            w == a + b,
    ;
    assert((512 - w) * d == 512 * d - w * d) by (nonlinear_arith);
    assert(column_beyond(col, xl) == (256 - a) * (256 - a) + 512 * (left + a - xl)) by {
        if xl <= left {
            lemma_beyond_left(col, xl);
            assert((256 - a) * (256 - a) == 65536) by (nonlinear_arith)
                requires
                    a == 0,
            ;
        }
    }
    assert(column_beyond(col, xr) == (256 - b) * (256 - b));
}

/// How far the heights of a span's walk fall short of the exact crossings.
proof fn lemma_shortfall(s: Span, k: int)
    requires
        s.wf(),
        0 <= k <= s.steps(),
    ensures
        0 <= distance(s, k) * s.rise() - (s.y_in(k) - s.ya) * s.run() <= k * s.run(),
        0 <= distance(s, k + 1) * s.rise() - (s.y_out(k) - s.ya) * s.run() <= (k + 1) * s.run(),
        s.first() == s.last() ==> distance(s, k + 1) * s.rise() == (s.y_out(k) - s.ya) * s.run(),
{
    let run = s.run();
    let rise = s.rise();
    assert(0 * rise == 0 && 0 * run == 0) by (nonlinear_arith);
    if k > 0 {
        law_crossing_accuracy(s, k);
    }
    if k < s.steps() {
        law_crossing_accuracy(s, k + 1);
    } else {
        assert(run * rise == rise * run) by (nonlinear_arith);
        assert(0 <= (k + 1) * run) by (nonlinear_arith)
            requires
                0 <= k,
                0 <= run,
        ;
    }
}

/// Coverage of slanted edges: in every pixel column that a span crosses, the
/// area right of it is off by at most a 256th of a pixel per column walked so
/// far. It is exact in all other columns, and where the span stays within one
/// column.
pub proof fn law_slanted_coverage(s: Span, col: int)
    requires
        s.wf(),
    ensures
        s.leftmost() <= col <= s.rightmost() ==> fixed::abs(
            (512 * s.cover_through(col) - s.area(col)) * s.run() - exact_area(s, col),
        ) <= 512 * (s.step(col) + 1) * s.run(),
        s.first() == s.last() || col < s.leftmost() || s.rightmost() < col ==> (512
            * s.cover_through(col) - s.area(col)) * s.run() == exact_area(s, col),
{
    let run = s.run();
    let rise = s.rise();
    let v = 512 * s.cover_through(col) - s.area(col);
    let xl = fixed::min(s.xa, s.xb);
    let xr = fixed::max(s.xa, s.xb);
    if col < s.leftmost() {
        assert(0 * run == 0 && rise * 0 == 0) by (nonlinear_arith);
    } else if s.rightmost() < col {
        assert(column_beyond(col, xl) - column_beyond(col, xr) == 512 * run) by {
            lemma_beyond_left(col, xl);
            lemma_beyond_left(col, xr);
        }
        assert((512 * rise) * run == rise * (512 * run)) by (nonlinear_arith);
    } else {
        let k = s.step(col);
        let w = s.x_in(k) + s.x_out(k);
        let d0 = distance(s, k);
        let d1 = distance(s, k + 1);
        let h0 = s.y_in(k) - s.ya;
        let h1 = s.y_out(k) - s.ya;
        lemma_exact_column(s, col);
        lemma_shortfall(s, k);
        let p = d0 * rise - h0 * run;
        let q = d1 * rise - h1 * run;
        let bound = (k + 1) * run;
        assert(0 <= w <= 512);
        assert(k * run <= bound) by (nonlinear_arith)
            requires
                bound == (k + 1) * run,
                0 <= run,
        ;
        assert(s.area(col) == w * (h1 - h0));
        if s.xa <= s.xb {
            assert(s.cover_through(col) == h1);
            lemma_rightward_error(run, rise, d0, d1, h0, h1, w);
            lemma_weighted_error(w, q, p, bound);
        } else {
            assert(s.cover_through(col) == rise - h0);
            lemma_leftward_error(run, rise, d0, d1, h0, h1, w);
            lemma_weighted_error(w, p, q, bound);
        }
        assert(512 * (k + 1) * run == 512 * bound) by (nonlinear_arith)
            requires
                bound == (k + 1) * run,
        ;
        if s.first() == s.last() {
            assert(p == 0 && q == 0) by {
                assert(0 * rise == 0 && 0 * run == 0) by (nonlinear_arith);
            }
            assert((512 - w) * 0 == 0 && w * 0 == 0) by (nonlinear_arith);
        }
    }
}

/// Left of a column, each unit adds its whole width.
proof fn lemma_beyond_left(col: int, x: int)
    requires
        x <= col * 256,
    ensures
        column_beyond(col, x) == 65536 + 512 * (col * 256 - x),
{
    assert(256 * 256 == 65536) by (nonlinear_arith);
}

/// The error of a cell's area on a span walked to the right.
proof fn lemma_rightward_error(
    run: int,
    rise: int,
    d0: int,
    d1: int,
    h0: int,
    h1: int,
    w: int,
)
    ensures
        rise * (512 * d1 - w * (d1 - d0)) - (512 * h1 - w * (h1 - h0)) * run == (512 - w) * (d1
            * rise - h1 * run) + w * (d0 * rise - h0 * run),
{
    assert(rise * (512 * d1 - w * (d1 - d0)) == 512 * (d1 * rise) - w * (d1 * rise) + w * (d0
        * rise)) by (nonlinear_arith);
    assert((512 * h1 - w * (h1 - h0)) * run == 512 * (h1 * run) - w * (h1 * run) + w * (h0 * run))
        by (nonlinear_arith);
    assert((512 - w) * (d1 * rise - h1 * run) == 512 * (d1 * rise) - 512 * (h1 * run) - w * (d1
        * rise) + w * (h1 * run)) by (nonlinear_arith);
    assert(w * (d0 * rise - h0 * run) == w * (d0 * rise) - w * (h0 * run)) by (nonlinear_arith);
}

/// The error of a cell's area on a span walked to the left.
proof fn lemma_leftward_error(
    run: int,
    rise: int,
    d0: int,
    d1: int,
    h0: int,
    h1: int,
    w: int,
)
    ensures
        (512 * (rise - h0) - w * (h1 - h0)) * run - rise * (512 * (run - d0) - w * (d1 - d0)) == (
        512 - w) * (d0 * rise - h0 * run) + w * (d1 * rise - h1 * run),
{
    assert(rise * (512 * (run - d0) - w * (d1 - d0)) == 512 * (rise * run) - 512 * (d0 * rise) - w
        * (d1 * rise) + w * (d0 * rise)) by (nonlinear_arith);
    assert((512 * (rise - h0) - w * (h1 - h0)) * run == 512 * (rise * run) - 512 * (h0 * run) - w
        * (h1 * run) + w * (h0 * run)) by (nonlinear_arith);
    assert((512 - w) * (d0 * rise - h0 * run) == 512 * (d0 * rise) - 512 * (h0 * run) - w * (d0
        * rise) + w * (h0 * run)) by (nonlinear_arith);
    assert(w * (d1 * rise - h1 * run) == w * (d1 * rise) - w * (h1 * run)) by (nonlinear_arith);
}

/// A weighted mean of two errors is no larger than both.
proof fn lemma_weighted_error(w: int, p: int, q: int, bound: int)
    by (nonlinear_arith)
    requires
        0 <= w <= 512,
        0 <= p <= bound,
        0 <= q <= bound,
    ensures
        0 <= (512 - w) * p + w * q <= 512 * bound,
{
    assert(0 <= (512 - w) * p <= (512 - w) * bound);
    assert(0 <= w * q <= w * bound);
    assert((512 - w) * bound + w * bound == 512 * bound);
}

/// An edge's x coordinate starts out exact, and at a distance of `t` units
/// from its top end it is off by less than `1 + t / 65536` units.
pub proof fn law_slope_accuracy(e: Edge, y: int)
    requires
        e.wf(),
        e.yl <= y <= e.yh,
    ensures
        e.x_at(e.yl as int) == e.xl,
        fixed::abs(
            ((e.x_at(y) - e.xl) * (e.yh - e.yl) - (y - e.yl) * (e.xh - e.xl)) * 65536,
        ) < (65536 + (y - e.yl)) * (e.yh - e.yl),
{
    let d = e.yh - e.yl;
    let t = y - e.yl;
    let dx = e.xh - e.xl;
    let n = dx * 65536;
    let m = fixed::abs(n);
    let s = e.slope as int;
    let p = t * s;
    let x = e.x_at(y) - e.xl;
    assert(0 * s == 0) by (nonlinear_arith);
    vstd::arithmetic::div_mod::lemma_fundamental_div_mod(m, d);
    let q = m / d;
    // The slope is off by less than one.
    let err = n - d * s;
    assert(d * -q == -(d * q)) by (nonlinear_arith);
    assert(-d < err < d);
    assert(x == p / 65536);
    let rem = p - x * 65536;
    assert(0 <= rem < 65536);
    let diff = (x * d - t * dx) * 65536;
    assert(diff == -(rem * d) - t * err) by (nonlinear_arith)
        requires
            rem == p - x * 65536,
            p == t * s,
            err == n - d * s,
            n == dx * 65536,
            diff == (x * d - t * dx) * 65536,
    {
        assert((x * d) * 65536 == (p - rem) * d);
        assert((t * dx) * 65536 == t * n);
        assert(t * n == t * (err + d * s));
        assert(t * (err + d * s) == t * err + t * (d * s));
        assert(t * (d * s) == p * d);
        assert((p - rem) * d == p * d - rem * d);
    }
    assert(fixed::abs(diff) < (65536 + t) * d) by {
        assert(0 <= rem * d <= 65535 * d) by (nonlinear_arith)
            requires
                0 <= rem <= 65535,
                0 < d,
        ;
        assert(-(t * d) <= t * err <= t * d) by (nonlinear_arith)
            requires
                0 <= t,
                -d < err < d,
        ;
        assert((65536 + t) * d == 65535 * d + d + t * d) by (nonlinear_arith);
    }
}

/// Scenes of thousands of edges and ordinary position can be drawn.
pub proof fn law_ordinary_scenes_render(edges: Seq<Edge>, ext: Extents)
    requires
        scene::all_wf(edges),
        edges.len() <= 16383,
        -0x4000_0000 <= ext.x0 <= 0x4000_0000,
        -0x4000_0000 <= ext.y0 <= 0x4000_0000,
        ext.y0 + ext.height <= 0x7f_ffff,
    ensures
        scene::renderable(edges, ext),
{
    scene::lemma_modest_fits(edges, ext);
}

/// Without edges or without pixels there is nothing that could overflow.
pub proof fn law_blank_scenes_render(edges: Seq<Edge>, ext: Extents)
    requires
        edges.len() == 0 || ext.width == 0 || ext.height == 0,
    ensures
        scene::renderable(edges, ext),
{
}

/// Saturation gives the nearest value in range.
pub proof fn law_clamp_is_nearest(v: int, lo: int, hi: int, w: int)
    requires
        lo <= w <= hi,
    ensures
        lo <= fixed::clamp(v, lo, hi) <= hi,
        lo <= v <= hi ==> fixed::clamp(v, lo, hi) == v,
        fixed::abs(fixed::clamp(v, lo, hi) - v) <= fixed::abs(w - v),
{
}

/// The touched range of a row is the smallest that holds the old one and the
/// columns that are added, where columns left of the row count as column 0 for
/// its lower end.
pub proof fn law_touched_range(x_min: int, x_max: int, a: int, b: int, width: int, c: int)
    requires
        a <= b,
        0 <= x_min,
        0 <= x_max,
    ensures
        sweep::min_touched(x_min, a, width) <= x_min,
        x_max <= sweep::max_touched(x_max, a, b, width),
        a <= c <= b && 0 <= c < width ==> sweep::min_touched(x_min, a, width) <= c
            <= sweep::max_touched(x_max, a, b, width),
        a < 0 ==> sweep::min_touched(x_min, a, width) == 0,
        ({
            let m = sweep::min_touched(x_min, a, width);
            m == x_min || (a < 0 && m == 0) || (a <= m <= b && 0 <= m < width)
        }),
        ({
            let m = sweep::max_touched(x_max, a, b, width);
            m == x_max || (a <= m <= b && 0 <= m < width)
        }),
{
}

/// A scene can be drawn if no cell has more area on it than 32 bits hold,
/// however many edges there are up to `2^23 - 1`.
pub proof fn law_scenes_with_room_render(edges: Seq<Edge>, ext: Extents)
    requires
        scene::all_wf(edges),
        edges.len() <= 0x7f_ffff,
        -0x4000_0000 <= ext.x0 <= 0x4000_0000,
        -0x4000_0000 <= ext.y0 <= 0x4000_0000,
        ext.y0 + ext.height <= 0x7f_ffff,
        forall|row: int, c: int|
            0 <= row < ext.height && 0 <= c < ext.width ==> #[trigger] area_load(
                edges,
                (ext.y0 + row) * 256,
                ext.x0 + c,
            ) <= i32::MAX,
    ensures
        scene::renderable(edges, ext),
{
    let n = edges.len() as int;
    assert forall|row: int| 0 <= row < ext.height implies #[trigger] scene::row_fits(
        edges,
        ext,
        row,
    ) by {
        let top = (ext.y0 + row) * 256;
        assert(top == ext.row_top(row));
        scene::lemma_covers_fit(edges, ext, row);
        assert forall|i: int| 0 <= i < edges.len() && #[trigger] edges[i].meets(top) implies {
            &&& top + 256 <= i32::MAX
            &&& fixed::in_i32(edges[i].span(top).leftmost() - ext.x0)
            &&& fixed::in_i32(edges[i].span(top).rightmost() - ext.x0)
        } by {
            edge::lemma_span_wf(edges[i], top);
        }
        assert forall|c: int, i: int|
            0 <= c < ext.width && 0 <= i < edges.len() implies fixed::in_i32(
            #[trigger] scene::partial_area(edges, ext.y0 as int, top, ext.x0 + c, i),
        ) by {
            let f = |j: int|
                if scene::drawn_by(edges, ext.y0 as int, j, i) {
                    edges[j].area(top, ext.x0 + c)
                } else {
                    0
                };
            assert(area_load(edges, (ext.y0 + row) * 256, ext.x0 + c) <= i32::MAX);
            sum::lemma_sum_magnitude(n, f, |j: int| fixed::abs(edges[j].area(top, ext.x0 + c)));
        }
    }
}

/// The areas that all edges add to a cell, whatever their sign.
pub open spec fn area_load(edges: Seq<Edge>, top: int, col: int) -> int {
    sum::sum(edges.len() as int, |i: int| fixed::abs(edges[i].area(top, col)))
}

/// An alpha is the size of the difference between the scaled cover and the
/// area, up to full coverage.
pub proof fn law_alpha_is_clamped_size(accum: int, area: int)
    ensures
        0 <= shade::cell_alpha(accum, area) <= 131072,
        shade::cell_alpha(accum, area) == 512 * accum - area || shade::cell_alpha(accum, area)
            == area - 512 * accum || (shade::cell_alpha(accum, area) == 131072 && !(-131072 <= 512
            * accum - area <= 131072)),
        shade::cell_alpha(-accum, -area) == shade::cell_alpha(accum, area),
{
}

/// Sums of covers split, and that of one column is its cover.
pub proof fn law_cover_sums_split(cover: Seq<i32>, a: int, b: int, c: int)
    requires
        0 <= a <= b <= c <= cover.len(),
    ensures
        shade::cover_sum(cover, a, c) == shade::cover_sum(cover, a, b) + shade::cover_sum(
            cover,
            b,
            c,
        ),
        a < cover.len() ==> shade::cover_sum(cover, a, a + 1) == cover[a],
    decreases c - b,
{
    if b < c {
        law_cover_sums_split(cover, a, b, c - 1);
    }
    if a < cover.len() {
        assert(shade::cover_sum(cover, a, a) == 0);
    }
}

/// The covers that an edge adds to the columns of a row add up to the height
/// that it covers through them.
pub proof fn law_row_covers_add_up(e: Edge, top: int, x_org: int, width: int, k: int)
    requires
        e.wf(),
        1 <= k <= width,
    ensures
        sum::sum(k, |c: int| sweep::column_cover(e, top, x_org, width, c)) == e.cover_through(
            top,
            x_org + k - 1,
        ),
    decreases k,
{
    let f = |c: int| sweep::column_cover(e, top, x_org, width, c);
    assert(sum::sum(k, f) == sum::sum(k - 1, f) + f(k - 1));
    if k == 1 {
        assert(sum::sum(0, f) == 0);
    } else {
        law_row_covers_add_up(e, top, x_org, width, k - 1);
        law_cover_is_conserved(e, top, x_org + k - 1);
        assert(x_org + (k - 1) == x_org + k - 1);
        assert(x_org + (k - 1) - 1 == x_org + k - 1 - 1);
    }
}

} // verus!
