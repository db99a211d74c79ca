//! What a set of edges looks like on a pixel grid.
//!
//! The functions here describe the output of a rasterizer from the edges and
//! the output extents alone. A pixel's alpha depends on two sums over all
//! edges: the area that the edges cut off inside the pixel, and the cover that
//! they carry into it from the columns through its own.
use crate::edge;
use crate::edge::Edge;
use crate::fixed;
use crate::shade;
use crate::sum;
use vstd::prelude::*;

verus! {

/// Output extents, in whole pixels.
#[derive(Copy, Clone, Debug, PartialEq, Eq, Structural)]
pub struct Extents {
    /// X origin of the top-left pixel of the output.
    pub x0: i32,
    /// Y origin of the top-left pixel of the output.
    pub y0: i32,
    pub width: u32,
    pub height: u32,
}

impl Extents {
    pub open spec fn spec_empty() -> Extents {
        Extents { x0: 0, y0: 0, width: 0, height: 0 }
    }

    /// Top of the output row `row`, in sub-pixel units.
    pub open spec fn row_top(self, row: int) -> int {
        (self.y0 + row) * 256
    }
}

impl Default for Extents {
    fn default() -> (e: Extents)
        ensures
            e == Extents::spec_empty(),
    {
        Extents { x0: 0, y0: 0, width: 0, height: 0 }
    }
}

/// Pixel column that holds the leftmost end of an edge.
pub open spec fn left_of(e: Edge) -> int {
    fixed::min(e.xl as int, e.xh as int) / 256
}

/// First pixel column that starts at or right of both ends of an edge.
pub open spec fn right_of(e: Edge) -> int {
    (fixed::max(e.xl as int, e.xh as int) + 255) / 256
}

/// Pixel row that holds the top end of an edge.
pub open spec fn top_of(e: Edge) -> int {
    e.yl as int / 256
}

/// First pixel row that starts at or below both ends of an edge.
pub open spec fn bottom_of(e: Edge) -> int {
    (e.yh + 255) / 256
}

/// `ext` is the smallest rectangle of whole pixels that holds every edge.
pub open spec fn bounds(edges: Seq<Edge>, ext: Extents) -> bool {
    &&& forall|i: int|
        0 <= i < edges.len() ==> {
            &&& ext.x0 <= left_of(#[trigger] edges[i])
            &&& right_of(edges[i]) <= ext.x0 + ext.width
            &&& ext.y0 <= top_of(edges[i])
            &&& bottom_of(edges[i]) <= ext.y0 + ext.height
        }
    &&& exists|i: int| 0 <= i < edges.len() && left_of(#[trigger] edges[i]) == ext.x0
    &&& exists|i: int|
        0 <= i < edges.len() && right_of(#[trigger] edges[i]) == ext.x0 + ext.width
    &&& exists|i: int| 0 <= i < edges.len() && top_of(#[trigger] edges[i]) == ext.y0
    &&& exists|i: int|
        0 <= i < edges.len() && bottom_of(#[trigger] edges[i]) == ext.y0 + ext.height
}

/// Signed doubled area left of the edges in pixel column `col` of the row at
/// `top`.
pub open spec fn total_area(edges: Seq<Edge>, top: int, col: int) -> int {
    sum::sum(edges.len() as int, |i: int| edges[i].area(top, col))
}

/// Cover that an edge adds to output column `c`. Output column 0 also
/// collects the cover of everything to its left.
pub open spec fn edge_column_cover(e: Edge, x0: int, top: int, c: int) -> int {
    if c == 0 {
        e.cover_through(top, x0)
    } else {
        e.cover(top, x0 + c)
    }
}

/// Cover of all edges in output column `c`.
pub open spec fn total_cover(edges: Seq<Edge>, x0: int, top: int, c: int) -> int {
    sum::sum(edges.len() as int, |i: int| edge_column_cover(edges[i], x0, top, c))
}

/// Cover accumulated from output column 0 through output column `c`.
pub open spec fn accumulated_cover(edges: Seq<Edge>, x0: int, top: int, c: int) -> int
    decreases c + 1,
{
    if c < 0 {
        0
    } else {
        accumulated_cover(edges, x0, top, c - 1) + total_cover(edges, x0, top, c)
    }
}

/// The byte of the pixel in output row `row` and output column `c`.
pub open spec fn pixel(edges: Seq<Edge>, ext: Extents, row: int, c: int) -> int {
    fixed::alpha_byte(
        shade::cell_alpha(
            accumulated_cover(edges, ext.x0 as int, ext.row_top(row), c),
            total_area(edges, ext.row_top(row), ext.x0 + c),
        ),
    )
}

/// The byte at index `i` of an output whose rows start `stride` bytes apart.
/// Padding beyond a row's pixels is zero.
pub open spec fn output(edges: Seq<Edge>, ext: Extents, stride: int, i: int) -> int {
    if i % stride < ext.width {
        pixel(edges, ext, i / stride, i % stride)
    } else {
        0
    }
}

/// The first output row that an edge can reach.
pub open spec fn start_row(e: Edge, y0: int) -> int {
    fixed::max(e.yl as int / 256 - y0, 0)
}

/// Edge `j` is drawn no later than edge `i`: edges are drawn by their first
/// row, and in the order of the path within a row.
pub open spec fn drawn_by(edges: Seq<Edge>, y0: int, j: int, i: int) -> bool {
    let rj = start_row(edges[j], y0);
    let ri = start_row(edges[i], y0);
    rj < ri || (rj == ri && j <= i)
}

/// Area in one cell once edge `i` has been drawn.
pub open spec fn partial_area(edges: Seq<Edge>, y0: int, top: int, col: int, i: int) -> int {
    sum::sum(
        edges.len() as int,
        |j: int|
            if drawn_by(edges, y0, j, i) {
                edges[j].area(top, col)
            } else {
                0
            },
    )
}

/// Cover in one output column once edge `i` has been drawn.
pub open spec fn partial_cover(
    edges: Seq<Edge>,
    x0: int,
    y0: int,
    top: int,
    c: int,
    i: int,
) -> int {
    sum::sum(
        edges.len() as int,
        |j: int|
            if drawn_by(edges, y0, j, i) {
                edge_column_cover(edges[j], x0, top, c)
            } else {
                0
            },
    )
}

/// The edges' first rows, relative to the output, are within 32 bits.
pub open spec fn starts_fit(edges: Seq<Edge>, y0: int) -> bool {
    forall|i: int|
        0 <= i < edges.len() ==> fixed::in_i32(#[trigger] edges[i].yl as int / 256 - y0)
}

/// The position of the row, and the columns that the edges reach in it, are
/// within 32 bits.
pub open spec fn positions_fit(edges: Seq<Edge>, ext: Extents, row: int) -> bool {
    let top = ext.row_top(row);
    forall|i: int|
        0 <= i < edges.len() && #[trigger] edges[i].meets(top) ==> {
            &&& top + 256 <= i32::MAX
            &&& fixed::in_i32(edges[i].span(top).leftmost() - ext.x0)
            &&& fixed::in_i32(edges[i].span(top).rightmost() - ext.x0)
        }
}

/// No area accumulated in the row leaves the 32-bit range.
pub open spec fn areas_fit(edges: Seq<Edge>, ext: Extents, row: int) -> bool {
    forall|c: int, i: int|
        0 <= c < ext.width && 0 <= i < edges.len() ==> fixed::in_i32(
            #[trigger] partial_area(edges, ext.y0 as int, ext.row_top(row), ext.x0 + c, i),
        )
}

/// No cover accumulated in the row leaves the 32-bit range.
pub open spec fn covers_fit(edges: Seq<Edge>, ext: Extents, row: int) -> bool {
    &&& forall|c: int, i: int|
        0 <= c < ext.width && 0 <= i < edges.len() ==> fixed::in_i32(
            #[trigger] partial_cover(
                edges,
                ext.x0 as int,
                ext.y0 as int,
                ext.row_top(row),
                c,
                i,
            ),
        )
    &&& forall|c: int|
        0 <= c < ext.width ==> fixed::in_i32(
            #[trigger] accumulated_cover(edges, ext.x0 as int, ext.row_top(row), c),
        )
}

/// Drawing the edges into one output row stays within the types used for it.
pub open spec fn row_fits(edges: Seq<Edge>, ext: Extents, row: int) -> bool {
    &&& positions_fit(edges, ext, row)
    &&& areas_fit(edges, ext, row)
    &&& covers_fit(edges, ext, row)
}

/// Drawing the edges into the extents stays within the types used for it.
pub open spec fn fits(edges: Seq<Edge>, ext: Extents) -> bool {
    ext.width > 0 && ext.height > 0 && edges.len() > 0 ==> {
        &&& edges.len() <= 0x1_0000_0000
        &&& starts_fit(edges, ext.y0 as int)
        &&& forall|row: int| 0 <= row < ext.height ==> #[trigger] row_fits(edges, ext, row)
    }
}

/// Every edge is normalized.
pub open spec fn all_wf(edges: Seq<Edge>) -> bool {
    forall|i: int| 0 <= i < edges.len() ==> (#[trigger] edges[i]).wf()
}

/// A scene of ordinary size and position.
pub open spec fn modest(edges: Seq<Edge>, ext: Extents) -> bool {
    &&& edges.len() <= 8191
    &&& -0x4000_0000 <= ext.x0 <= 0x4000_0000
    &&& -0x4000_0000 <= ext.y0 <= 0x4000_0000
    &&& ext.y0 + ext.height <= 0x7f_ffff
}

/// The scene can be drawn. A modest scene always fits, which
/// `lemma_modest_fits` shows.
pub open spec fn renderable(edges: Seq<Edge>, ext: Extents) -> bool {
    modest(edges, ext) || fits(edges, ext)
}

/// Bounds of what an edge contributes to one cell.
pub proof fn lemma_edge_bounds(e: Edge, top: int, col: int)
    requires
        e.wf(),
    ensures
        fixed::abs(e.area(top, col)) <= 512 * fixed::abs(e.cover(top, col)),
        fixed::abs(e.cover(top, col)) <= fixed::abs(e.cover_through(top, col)) <= 256,
        fixed::abs(e.cover_through(top, col)) == fixed::abs(e.cover_through(top, col - 1))
            + fixed::abs(e.cover(top, col)),
        e.cover_through(top, col) == e.cover_through(top, col - 1) + e.cover(top, col),
{
    if e.meets(top) {
        edge::lemma_span_wf(e, top);
        edge::lemma_span_bounds(e.span(top), col);
        edge::lemma_span_bounds(e.span(top), col - 1);
        edge::lemma_cover_through_step(e.span(top), col);
        fixed::lemma_signed(e.span(top).area(col), e.wind as int);
        fixed::lemma_signed(e.span(top).cover(col), e.wind as int);
        fixed::lemma_signed(e.span(top).cover_through(col), e.wind as int);
        fixed::lemma_signed(e.span(top).cover_through(col - 1), e.wind as int);
    }
}

/// The accumulated cover is no larger than the heights of the edges that it
/// comes from.
pub proof fn lemma_accumulated_bound(edges: Seq<Edge>, x0: int, top: int, c: int)
    requires
        all_wf(edges),
        0 <= c,
    ensures
        fixed::abs(accumulated_cover(edges, x0, top, c)) <= sum::sum(
            edges.len() as int,
            |i: int| fixed::abs(edges[i].cover_through(top, x0 + c)),
        ),
    decreases c,
{
    let n = edges.len() as int;
    let here = |i: int| fixed::abs(edges[i].cover_through(top, x0 + c));
    let before = |i: int| fixed::abs(edges[i].cover_through(top, x0 + (c - 1)));
    let column = |i: int| edge_column_cover(edges[i], x0, top, c);
    let size = |i: int| fixed::abs(edge_column_cover(edges[i], x0, top, c));
    sum::lemma_sum_magnitude(n, column, size);
    assert(fixed::abs(total_cover(edges, x0, top, c)) <= sum::sum(n, size));
    if c == 0 {
        assert forall|i: int| 0 <= i < n implies #[trigger] size(i) == here(i) by {}
        sum::lemma_sum_eq(n, size, here);
        assert(accumulated_cover(edges, x0, top, -1) == 0);
    } else {
        lemma_accumulated_bound(edges, x0, top, c - 1);
        assert forall|i: int| 0 <= i < n implies #[trigger] here(i) == before(i) + size(i) by {
            lemma_edge_bounds(edges[i], top, x0 + c);
            assert(x0 + (c - 1) == x0 + c - 1);
        }
        sum::lemma_sum_add(n, before, size, here);
    }
}

/// Covers stay within 32 bits for up to `2^23 - 1` edges.
pub proof fn lemma_covers_fit(edges: Seq<Edge>, ext: Extents, row: int)
    requires
        all_wf(edges),
        edges.len() <= 0x7f_ffff,
    ensures
        covers_fit(edges, ext, row),
{
    let n = edges.len() as int;
    let top = ext.row_top(row);
    let x0 = ext.x0 as int;
    let y0 = ext.y0 as int;
    assert forall|c: int, i: int|
        0 <= c < ext.width && 0 <= i < edges.len() implies fixed::in_i32(
        #[trigger] partial_cover(edges, x0, y0, top, c, i),
    ) by {
        let f = |j: int|
            if drawn_by(edges, y0, j, i) {
                edge_column_cover(edges[j], x0, top, c)
            } else {
                0
            };
        assert forall|j: int| 0 <= j < n implies fixed::abs(#[trigger] f(j)) <= 256 by {
            lemma_edge_bounds(edges[j], top, x0 + c);
        }
        sum::lemma_sum_bound(n, f, 256);
    }
    assert forall|c: int| 0 <= c < ext.width implies fixed::in_i32(
        #[trigger] accumulated_cover(edges, x0, top, c),
    ) by {
        let g = |j: int| fixed::abs(edges[j].cover_through(top, x0 + c));
        assert forall|j: int| 0 <= j < n implies fixed::abs(#[trigger] g(j)) <= 256 by {
            lemma_edge_bounds(edges[j], top, x0 + c);
        }
        sum::lemma_sum_bound(n, g, 256);
        lemma_accumulated_bound(edges, x0, top, c);
    }
}

/// A modest scene fits the accumulators.
pub proof fn lemma_modest_fits(edges: Seq<Edge>, ext: Extents)
    requires
        all_wf(edges),
        edges.len() <= 16383,
        -0x4000_0000 <= ext.x0 <= 0x4000_0000,
        -0x4000_0000 <= ext.y0 <= 0x4000_0000,
        ext.y0 + ext.height <= 0x7f_ffff,
    ensures
        fits(edges, ext),
{
    let n = edges.len() as int;
    assert forall|row: int| 0 <= row < ext.height implies #[trigger] row_fits(edges, ext, row) by {
        let top = ext.row_top(row);
        assert forall|i: int| 0 <= i < edges.len() && #[trigger] edges[i].meets(top) implies {
            &&& top + 256 <= i32::MAX
            &&& fixed::in_i32(edges[i].span(top).leftmost() - ext.x0)
            &&& fixed::in_i32(edges[i].span(top).rightmost() - ext.x0)
        } by {
            edge::lemma_span_wf(edges[i], top);
        }
        assert forall|c: int, i: int|
            0 <= c < ext.width && 0 <= i < edges.len() implies fixed::in_i32(
            #[trigger] partial_area(edges, ext.y0 as int, top, ext.x0 + c, i),
        ) by {
            let f = |j: int|
                if drawn_by(edges, ext.y0 as int, j, i) {
                    edges[j].area(top, ext.x0 + c)
                } else {
                    0
                };
            assert forall|j: int| 0 <= j < n implies fixed::abs(#[trigger] f(j)) <= 131072 by {
                lemma_edge_bounds(edges[j], top, ext.x0 + c);
            }
            sum::lemma_sum_bound(n, f, 131072);
        }
        lemma_covers_fit(edges, ext, row);
    }
}

/// Without edges there is nothing to accumulate.
pub proof fn lemma_no_cover(edges: Seq<Edge>, x0: int, top: int, c: int)
    requires
        edges.len() == 0,
    ensures
        accumulated_cover(edges, x0, top, c) == 0,
    decreases c + 1,
{
    if c >= 0 {
        lemma_no_cover(edges, x0, top, c - 1);
    }
}

/// Where there are no edges, or no pixels, the output is zero.
pub proof fn lemma_blank(edges: Seq<Edge>, ext: Extents, stride: int, i: int)
    requires
        0 <= i,
        0 < stride,
        edges.len() == 0 || ext.width == 0,
    ensures
        output(edges, ext, stride, i) == 0,
{
    if edges.len() == 0 {
        lemma_no_cover(edges, ext.x0 as int, ext.row_top(i / stride), i % stride);
    }
}

} // verus!
