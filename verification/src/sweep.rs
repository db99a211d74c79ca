//! Accumulation of edges into the cells of one pixel row.
//!
//! A row keeps two accumulators per pixel column: `area`, the doubled area
//! between the edges and the left side of the column, and `cover`, the height
//! of the edges within the column. Both are signed by the edges' direction.
use crate::edge;
use crate::edge::{Edge, Span};
use crate::fixed;
use crate::fixed::{clamp_i64_to_i32, fraction_of, pixel_of, ONE_PIXEL};
use vstd::prelude::*;

verus! {

/// Lower end of the touched columns once columns from `a` on have been added to
/// a row of `width` columns. Columns left of the row count as column 0.
pub open spec fn min_touched(x_min: int, a: int, width: int) -> int {
    if a < 0 {
        0
    } else if a < width {
        fixed::min(x_min, a)
    } else {
        x_min
    }
}

/// Upper end of the touched columns once the columns `a ..= b` of a row of
/// `width` columns have been added. Columns outside of the row do not count.
pub open spec fn max_touched(x_max: int, a: int, b: int, width: int) -> int {
    let h = fixed::min(b, width - 1);
    if 0 <= h && a <= h {
        fixed::max(x_max, h)
    } else {
        x_max
    }
}

/// Add one edge piece's area/cover into a single cell.
///
/// A piece left of the surface still winds around the visible region, so its
/// cover goes to column 0. Its area does not, since the piece does not cross
/// that column. A piece right of the surface has no effect.
pub fn cell_add(
    area: &mut [i32],
    cover: &mut [i32],
    col: i32,
    fx0: i32,
    fy0: i32,
    fx1: i32,
    fy1: i32,
    wind: i32,
    x_min: &mut usize,
    x_max: &mut usize,
)
    requires
        col < 0 ==> old(cover).len() > 0,
        0 <= col < old(area).len() ==> col < old(cover).len(),
        col < old(area).len() ==> {
            &&& fixed::in_i32(fy1 - fy0)
            &&& fixed::in_i32((fy1 - fy0) * wind)
        },
        col < 0 ==> fixed::in_i32(old(cover)[0] + (fy1 - fy0) * wind),
        0 <= col < old(area).len() ==> {
            &&& fixed::in_i32(old(cover)[col as int] + (fy1 - fy0) * wind)
            &&& fixed::in_i32(fx0 + fx1)
            &&& fixed::in_i32((fx0 + fx1) * (fy1 - fy0))
            &&& fixed::in_i32((fx0 + fx1) * (fy1 - fy0) * wind)
            &&& fixed::in_i32(old(area)[col as int] + (fx0 + fx1) * (fy1 - fy0) * wind)
        },
    ensures
        final(area).len() == old(area).len(),
        final(cover).len() == old(cover).len(),
        forall|c: int|
            0 <= c < old(area).len() ==> #[trigger] final(area)[c] == old(area)[c] + if c == col {
                (fx0 + fx1) * (fy1 - fy0) * wind
            } else {
                0
            },
        forall|c: int|
            0 <= c < old(cover).len() ==> #[trigger] final(cover)[c] == old(cover)[c] + if (c == col
                && c < old(area).len()) || (c == 0 && col < 0) {
                (fy1 - fy0) * wind
            } else {
                0
            },
        *final(x_min) == min_touched(
            *old(x_min) as int,
            col as int,
            old(area).len() as int,
        ),
        *final(x_max) == max_touched(
            *old(x_max) as int,
            col as int,
            col as int,
            old(area).len() as int,
        ),
{
    let width: usize = area.len();
    if col < 0 || col as usize >= width {
        if col < 0 {
            let dy: i32 = fy1 - fy0;
            cover[0] = cover[0] + dy * wind;
            *x_min = 0;
        }
        return ;
    }
    let col: usize = col as usize;
    let dy: i32 = fy1 - fy0;
    area[col] = area[col] + (fx0 + fx1) * dy * wind;
    cover[col] = cover[col] + dy * wind;
    *x_min = (*x_min).min(col);
    *x_max = (*x_max).max(col);
}

/// Last pixel column whose cover goes to the first accumulator of a row that
/// starts at column `x_org`: the first column itself, or, where the row has no
/// columns, the one before it.
pub open spec fn carry_limit(x_org: int, width: int) -> int {
    if width > 0 {
        x_org
    } else {
        x_org - 1
    }
}

/// Cover that an edge adds to column `c` of a row of `width` columns that
/// starts at column `x_org`.
pub open spec fn column_cover(e: Edge, top: int, x_org: int, width: int, c: int) -> int {
    if c == 0 {
        e.cover_through(top, carry_limit(x_org, width))
    } else if c < width {
        e.cover(top, x_org + c)
    } else {
        0
    }
}

/// The accumulators of a row of `width` columns that starts at column `x_org`
/// reach as far as a span touches the row.
pub open spec fn within(s: Span, x_org: int, width: int, covers: int) -> bool {
    let h = fixed::min(s.rightmost() - x_org, width - 1);
    &&& s.leftmost() < x_org ==> 0 < covers
    &&& 0 <= h && s.leftmost() - x_org <= h ==> h < covers
}

/// The accumulators after the first `k` steps of a walk.
spec fn walked(
    s: Span,
    k: int,
    wind: int,
    x_org: int,
    area0: Seq<i32>,
    cover0: Seq<i32>,
    area: Seq<i32>,
    cover: Seq<i32>,
) -> bool {
    &&& area.len() == area0.len()
    &&& cover.len() == cover0.len()
    &&& forall|c: int|
        0 <= c < area0.len() ==> #[trigger] area[c] == area0[c] + if 0 <= s.step(x_org + c) < k {
            s.area(x_org + c) * wind
        } else {
            0
        }
    &&& forall|c: int|
        0 <= c < cover0.len() ==> #[trigger] cover[c] == cover0[c] + walked_cover(
            s,
            k,
            wind,
            x_org,
            area0.len() as int,
            c,
        )
}

/// Cover that the first `k` steps of a walk add to column `c`.
spec fn walked_cover(s: Span, k: int, wind: int, x_org: int, width: int, c: int) -> int {
    if c == 0 {
        left_cover(s, k, carry_limit(x_org, width)) * wind
    } else if c < width && 0 <= s.step(x_org + c) < k {
        s.cover(x_org + c) * wind
    } else {
        0
    }
}

/// The accumulators before the first step of a walk.
proof fn lemma_walk_start(s: Span, wind: int, x_org: int, area0: Seq<i32>, cover0: Seq<i32>)
    ensures
        walked(s, 0, wind, x_org, area0, cover0, area0, cover0),
{
    assert(0 * wind == 0) by (nonlinear_arith);
}

/// The accumulators after all steps of a walk.
proof fn lemma_walk_end(s: Span, org: int)
    requires
        s.wf(),
    ensures
        left_cover(s, s.steps() + 1, org) == s.cover_through(org),
{
    lemma_left_cover(s, s.steps() + 1, org);
}

/// One more step of a walk: the effect of `cell_add` on the piece of step `k`.
proof fn lemma_walk_step(
    s: Span,
    k: int,
    wind: int,
    x_org: int,
    area0: Seq<i32>,
    cover0: Seq<i32>,
    area1: Seq<i32>,
    cover1: Seq<i32>,
    area2: Seq<i32>,
    cover2: Seq<i32>,
)
    requires
        s.wf(),
        0 <= k <= s.steps(),
        walked(s, k, wind, x_org, area0, cover0, area1, cover1),
        area2.len() == area1.len(),
        cover2.len() == cover1.len(),
        forall|c: int|
            0 <= c < area1.len() ==> #[trigger] area2[c] == area1[c] + if c == s.column(k) - x_org {
                (s.x_in(k) + s.x_out(k)) * (s.y_out(k) - s.y_in(k)) * wind
            } else {
                0
            },
        forall|c: int|
            0 <= c < cover1.len() ==> #[trigger] cover2[c] == cover1[c] + if (c == s.column(k)
                - x_org && c < area1.len()) || (c == 0 && s.column(k) - x_org < 0) {
                (s.y_out(k) - s.y_in(k)) * wind
            } else {
                0
            },
    ensures
        walked(s, k + 1, wind, x_org, area0, cover0, area2, cover2),
{
    let org = carry_limit(x_org, area0.len() as int);
    let dy = s.y_out(k) - s.y_in(k);
    assert forall|c: int| 0 <= c < cover0.len() implies #[trigger] cover2[c] == cover0[c]
        + walked_cover(s, k + 1, wind, x_org, area0.len() as int, c) by {
        if c == 0 {
            let l = left_cover(s, k, org);
            assert((l + dy) * wind == l * wind + dy * wind) by (nonlinear_arith);
        }
    }
}

/// Height covered by the first `k` steps of a walk in the columns through
/// `org`.
spec fn left_cover(s: Span, k: int, org: int) -> int
    decreases k,
{
    if k <= 0 {
        0
    } else {
        left_cover(s, k - 1, org) + if s.column(k - 1) <= org {
            s.y_out(k - 1) - s.y_in(k - 1)
        } else {
            0
        }
    }
}

proof fn lemma_left_cover(s: Span, k: int, org: int)
    requires
        s.wf(),
        0 <= k <= s.steps() + 1,
    ensures
        left_cover(s, k, org) == if s.rightward() {
            let j = fixed::min(k, org - s.first() + 1);
            if j <= 0 {
                0
            } else {
                s.y_out(j - 1) - s.ya
            }
        } else {
            let j = fixed::max(s.first() - org, 0);
            if k <= j {
                0
            } else {
                s.y_out(k - 1) - s.y_in(j)
            }
        },
    decreases k,
{
    if k > 0 {
        lemma_left_cover(s, k - 1, org);
    }
}

/// The height covered only grows in the course of a walk.
proof fn lemma_left_cover_grows(s: Span, k: int, org: int)
    requires
        s.wf(),
        0 <= k <= s.steps() + 1,
    ensures
        0 <= left_cover(s, k, org) <= left_cover(s, s.steps() + 1, org),
    decreases s.steps() + 1 - k,
{
    edge::lemma_levels(s);
    if k <= s.steps() {
        assert(s.y_in(k) <= s.y_out(k));
        lemma_left_cover_grows(s, k + 1, org);
    }
    lemma_left_cover_positive(s, k, org);
}

proof fn lemma_left_cover_positive(s: Span, k: int, org: int)
    requires
        s.wf(),
        0 <= k <= s.steps() + 1,
    ensures
        0 <= left_cover(s, k, org),
    decreases k,
{
    if k > 0 {
        edge::lemma_levels(s);
        assert(s.y_in(k - 1) <= s.y_out(k - 1));
        lemma_left_cover_positive(s, k - 1, org);
    }
}

/// The span with the given ends.
spec fn spec_span(x0: i32, fy0: i32, x1: i32, fy1: i32) -> Span {
    Span { xa: x0 as int, ya: fy0 as int, xb: x1 as int, yb: fy1 as int }
}

/// The accumulators have room for a span drawn in direction `wind`.
spec fn span_fits(s: Span, wind: int, x_org: int, area: Seq<i32>, cover: Seq<i32>) -> bool {
    &&& s.wf()
    &&& wind == 1 || wind == -1
    &&& within(s, x_org, area.len() as int, cover.len() as int)
    &&& fixed::in_i32(s.leftmost() - x_org)
    &&& fixed::in_i32(s.rightmost() - x_org)
    &&& forall|c: int|
        0 <= c < area.len() ==> fixed::in_i32(#[trigger] area[c] + s.area(x_org + c) * wind)
    &&& forall|c: int|
        0 <= c < cover.len() ==> fixed::in_i32(
            #[trigger] cover[c] + walked_cover(
                s,
                s.steps() + 1,
                wind,
                x_org,
                area.len() as int,
                c,
            ),
        )
}

/// Walk one edge through the pixel cells of a single pixel row, accumulating
/// area/cover. `y_top` is the row's top in fixed point, `x_org` the pixel
/// column of the accumulators' first entry.
pub fn edge_sweep_row(
    area: &mut [i32],
    cover: &mut [i32],
    x_org: i32,
    y_top: i32,
    edge: &Edge,
    x_min: &mut usize,
    x_max: &mut usize,
)
    requires
        edge.wf(),
        y_top + 256 <= i32::MAX,
        edge.meets(y_top as int) ==> {
            let s = edge.span(y_top as int);
            &&& within(s, x_org as int, old(area).len() as int, old(cover).len() as int)
            &&& fixed::in_i32(s.leftmost() - x_org)
            &&& fixed::in_i32(s.rightmost() - x_org)
            &&& forall|c: int|
                0 <= c < old(area).len() ==> fixed::in_i32(
                    #[trigger] old(area)[c] + edge.area(y_top as int, x_org + c),
                )
            &&& forall|c: int|
                0 <= c < old(cover).len() ==> fixed::in_i32(
                    #[trigger] old(cover)[c] + column_cover(
                        *edge,
                        y_top as int,
                        x_org as int,
                        old(area).len() as int,
                        c,
                    ),
                )
        },
    ensures
        final(area).len() == old(area).len(),
        final(cover).len() == old(cover).len(),
        forall|c: int|
            0 <= c < old(area).len() ==> #[trigger] final(area)[c] == old(area)[c] + edge.area(
                y_top as int,
                x_org + c,
            ),
        forall|c: int|
            0 <= c < old(cover).len() ==> #[trigger] final(cover)[c] == old(cover)[c]
                + column_cover(
                *edge,
                y_top as int,
                x_org as int,
                old(area).len() as int,
                c,
            ),
        *final(x_min) == if edge.meets(y_top as int) {
            min_touched(
                *old(x_min) as int,
                edge.span(y_top as int).leftmost() - x_org,
                old(area).len() as int,
            )
        } else {
            *old(x_min) as int
        },
        *final(x_max) == if edge.meets(y_top as int) {
            max_touched(
                *old(x_max) as int,
                edge.span(y_top as int).leftmost() - x_org,
                edge.span(y_top as int).rightmost() - x_org,
                old(area).len() as int,
            )
        } else {
            *old(x_max) as int
        },
{
    match clip_to_row(edge, y_top) {
        None => {},
        Some((x0, fy0, x1, fy1)) => {
            proof {
                lemma_walk_end(
                    edge.span(y_top as int),
                    carry_limit(x_org as int, area.len() as int),
                );
            }
            sweep_span(area, cover, x_org, x0, fy0, x1, fy1, edge.wind, x_min, x_max);
        },
    }
}

/// Clip an edge to the pixel row whose top is at `y_top`: the x coordinate and
/// the y coordinate within the row of the entry, then those of the exit.
pub(crate) fn clip_to_row(edge: &Edge, y_top: i32) -> (r: Option<(i32, i32, i32, i32)>)
    requires
        edge.wf(),
        y_top + 256 <= i32::MAX,
    ensures
        r is Some <==> edge.meets(y_top as int),
        r matches Some((x0, fy0, x1, fy1)) ==> {
            &&& edge.span(y_top as int) == (Span {
                xa: x0 as int,
                ya: fy0 as int,
                xb: x1 as int,
                yb: fy1 as int,
            })
            &&& edge.span(y_top as int).wf()
        },
{
    let y_bot: i32 = y_top + ONE_PIXEL;

    let ey0: i32 = edge.yl.max(y_top);
    let ey1: i32 = edge.yh.min(y_bot);
    if ey0 >= ey1 {
        return None;
    }
    proof {
        edge::lemma_x_at(*edge, ey0 as int);
        edge::lemma_x_at(*edge, ey1 as int);
        edge::lemma_span_wf(*edge, y_top as int);
    }

    // X at the clipped endpoints (fixed point). The interpolation is in 64 bits
    // so that extreme y values do not overflow before the slope multiply.
    let p0: i64 = (ey0 as i64 - edge.yl as i64) * edge.slope;
    let p1: i64 = (ey1 as i64 - edge.yl as i64) * edge.slope;
    assert(p0 >> 16i64 == (p0 as int) / 65536) by (bit_vector);
    assert(p1 >> 16i64 == (p1 as int) / 65536) by (bit_vector);
    let x0: i32 = clamp_i64_to_i32(edge.xl as i64 + (p0 >> 16));
    let x1: i32 = clamp_i64_to_i32(edge.xl as i64 + (p1 >> 16));

    // Fractional y within this pixel row, in 0 ..= ONE_PIXEL.
    Some((x0, ey0 - y_top, x1, ey1 - y_top))
}

/// Accumulate the span from `(x0, fy0)` to `(x1, fy1)` of one pixel row. The
/// y coordinates are relative to the top of the row.
fn sweep_span(
    area: &mut [i32],
    cover: &mut [i32],
    x_org: i32,
    x0: i32,
    fy0: i32,
    x1: i32,
    fy1: i32,
    wind: i32,
    x_min: &mut usize,
    x_max: &mut usize,
)
    requires
        span_fits(
            spec_span(x0, fy0, x1, fy1),
            wind as int,
            x_org as int,
            old(area)@,
            old(cover)@,
        ),
    ensures
        walked(
            spec_span(x0, fy0, x1, fy1),
            spec_span(x0, fy0, x1, fy1).steps() + 1,
            wind as int,
            x_org as int,
            old(area)@,
            old(cover)@,
            final(area)@,
            final(cover)@,
        ),
        *final(x_min) == min_touched(
            *old(x_min) as int,
            spec_span(x0, fy0, x1, fy1).leftmost() - x_org,
            old(area).len() as int,
        ),
        *final(x_max) == max_touched(
            *old(x_max) as int,
            spec_span(x0, fy0, x1, fy1).leftmost() - x_org,
            spec_span(x0, fy0, x1, fy1).rightmost() - x_org,
            old(area).len() as int,
        ),
{
    let ghost s = spec_span(x0, fy0, x1, fy1);
    proof {
        edge::lemma_levels(s);
    }
    let cx0: i32 = pixel_of(x0);
    let fx0: i32 = fraction_of(x0);
    let cx1: i32 = pixel_of(x1);
    let fx1: i32 = fraction_of(x1);
    let ghost area0 = area@;
    let ghost cover0 = cover@;
    let ghost org = x_org as int;
    proof {
        lemma_walk_start(s, wind as int, org, area0, cover0);
    }

    // Fast path: both endpoints in the same pixel column.
    if cx0 == cx1 {
        proof {
            lemma_piece_fits(s, wind as int, 0);
            lemma_cover_room(s, 0, wind as int, org, area0, cover0, area@, cover@);
        }
        cell_add(area, cover, cx0 - x_org, fx0, fy0, fx1, fy1, wind, x_min, x_max);
        proof {
            lemma_walk_step(s, 0, wind as int, org, area0, cover0, area0, cover0, area@, cover@);
        }
        return ;
    }
    if x0 < x1 {
        walk_right(area, cover, x_org, x0, fy0, x1, fy1, wind, x_min, x_max);
    } else {
        walk_left(area, cover, x_org, x0, fy0, x1, fy1, wind, x_min, x_max);
    }
}

/// Accumulate a span that crosses columns from left to right.
fn walk_right(
    area: &mut [i32],
    cover: &mut [i32],
    x_org: i32,
    x0: i32,
    fy0: i32,
    x1: i32,
    fy1: i32,
    wind: i32,
    x_min: &mut usize,
    x_max: &mut usize,
)
    requires
        spec_span(x0, fy0, x1, fy1).first() < spec_span(x0, fy0, x1, fy1).last(),
        span_fits(
            spec_span(x0, fy0, x1, fy1),
            wind as int,
            x_org as int,
            old(area)@,
            old(cover)@,
        ),
    ensures
        walked(
            spec_span(x0, fy0, x1, fy1),
            spec_span(x0, fy0, x1, fy1).steps() + 1,
            wind as int,
            x_org as int,
            old(area)@,
            old(cover)@,
            final(area)@,
            final(cover)@,
        ),
        *final(x_min) == min_touched(
            *old(x_min) as int,
            spec_span(x0, fy0, x1, fy1).leftmost() - x_org,
            old(area).len() as int,
        ),
        *final(x_max) == max_touched(
            *old(x_max) as int,
            spec_span(x0, fy0, x1, fy1).leftmost() - x_org,
            spec_span(x0, fy0, x1, fy1).rightmost() - x_org,
            old(area).len() as int,
        ),
{
    let ghost s = spec_span(x0, fy0, x1, fy1);
    proof {
        edge::lemma_levels(s);
    }
    let cx0: i32 = pixel_of(x0);
    let fx0: i32 = fraction_of(x0);
    let cx1: i32 = pixel_of(x1);
    let fx1: i32 = fraction_of(x1);
    let ghost area0 = area@;
    let ghost cover0 = cover@;
    let ghost org = x_org as int;
    proof {
        lemma_walk_start(s, wind as int, org, area0, cover0);
    }

    let run: i64 = x1 as i64 - x0 as i64;
    let total_dy: i64 = fy1 as i64 - fy0 as i64;
    let ghost x_min0 = *x_min as int;
    let ghost x_max0 = *x_max as int;
    proof {
        lemma_piece_fits(s, wind as int, 0);
        lemma_cover_room(s, 0, wind as int, org, area0, cover0, area@, cover@);
        lemma_rise_per_column(s);
    }

    // fy increment per pixel column, the same for each full column.
    let delta_fy: i32 = (ONE_PIXEL as i64 * total_dy / run) as i32;

    // Left-to-right edge.
    let x_b: i32 = clamp_i64_to_i32((cx0 as i64 + 1) * ONE_PIXEL as i64);
    let lead: i64 = x_b as i64 - x0 as i64;
    let mut fy_b: i32 = fy0 + (lead * total_dy / run) as i32;
    cell_add(area, cover, cx0 - x_org, fx0, fy0, ONE_PIXEL, fy_b, wind, x_min, x_max);
    proof {
        lemma_walk_step(s, 0, wind as int, org, area0, cover0, area0, cover0, area@, cover@);
    }

    let mut fy_prev: i32 = fy_b;
    let mut cx: i32 = cx0 + 1;
    while cx < cx1
        invariant
            s == spec_span(x0, fy0, x1, fy1),
            s.first() < s.last(),
            cx0 == s.first(),
            cx1 == s.last(),
            org == x_org,
            cx0 < cx <= cx1,
            fy_prev == s.y_in(cx - cx0),
            delta_fy == 256 * s.rise() / s.run(),
            0 <= delta_fy <= 65536,
            span_fits(s, wind as int, org, area0, cover0),
            walked(s, cx - cx0, wind as int, org, area0, cover0, area@, cover@),
            *x_min == min_touched(x_min0, cx0 - x_org, area0.len() as int),
            *x_max == max_touched(x_max0, cx0 - x_org, cx - 1 - x_org, area0.len() as int),
        decreases cx1 - cx,
    {
        let ghost k = cx - cx0;
        let ghost area1 = area@;
        let ghost cover1 = cover@;
        proof {
            lemma_piece_fits(s, wind as int, k);
            lemma_cover_room(s, k, wind as int, org, area0, cover0, area@, cover@);
            lemma_next_level(s, k);
        }
        fy_b = fy_prev + delta_fy;
        cell_add(area, cover, cx - x_org, 0, fy_prev, ONE_PIXEL, fy_b, wind, x_min, x_max);
        proof {
            lemma_walk_step(
                s,
                k,
                wind as int,
                org,
                area0,
                cover0,
                area1,
                cover1,
                area@,
                cover@,
            );
        }
        fy_prev = fy_b;
        cx = cx + 1;
    }

    let ghost area1 = area@;
    let ghost cover1 = cover@;
    proof {
        lemma_piece_fits(s, wind as int, s.steps());
        lemma_cover_room(s, s.steps(), wind as int, org, area0, cover0, area@, cover@);
    }
    cell_add(area, cover, cx1 - x_org, 0, fy_prev, fx1, fy1, wind, x_min, x_max);
    proof {
        lemma_walk_step(
            s,
            s.steps(),
            wind as int,
            org,
            area0,
            cover0,
            area1,
            cover1,
            area@,
            cover@,
        );
    }
}

/// Accumulate a span that crosses columns from right to left.
fn walk_left(
    area: &mut [i32],
    cover: &mut [i32],
    x_org: i32,
    x0: i32,
    fy0: i32,
    x1: i32,
    fy1: i32,
    wind: i32,
    x_min: &mut usize,
    x_max: &mut usize,
)
    requires
        spec_span(x0, fy0, x1, fy1).last() < spec_span(x0, fy0, x1, fy1).first(),
        span_fits(
            spec_span(x0, fy0, x1, fy1),
            wind as int,
            x_org as int,
            old(area)@,
            old(cover)@,
        ),
    ensures
        walked(
            spec_span(x0, fy0, x1, fy1),
            spec_span(x0, fy0, x1, fy1).steps() + 1,
            wind as int,
            x_org as int,
            old(area)@,
            old(cover)@,
            final(area)@,
            final(cover)@,
        ),
        *final(x_min) == min_touched(
            *old(x_min) as int,
            spec_span(x0, fy0, x1, fy1).leftmost() - x_org,
            old(area).len() as int,
        ),
        *final(x_max) == max_touched(
            *old(x_max) as int,
            spec_span(x0, fy0, x1, fy1).leftmost() - x_org,
            spec_span(x0, fy0, x1, fy1).rightmost() - x_org,
            old(area).len() as int,
        ),
{
    let ghost s = spec_span(x0, fy0, x1, fy1);
    proof {
        edge::lemma_levels(s);
    }
    let cx0: i32 = pixel_of(x0);
    let fx0: i32 = fraction_of(x0);
    let cx1: i32 = pixel_of(x1);
    let fx1: i32 = fraction_of(x1);
    let ghost area0 = area@;
    let ghost cover0 = cover@;
    let ghost org = x_org as int;
    proof {
        lemma_walk_start(s, wind as int, org, area0, cover0);
    }

    let run: i64 = x0 as i64 - x1 as i64;
    let total_dy: i64 = fy1 as i64 - fy0 as i64;
    let ghost x_min0 = *x_min as int;
    let ghost x_max0 = *x_max as int;
    proof {
        lemma_piece_fits(s, wind as int, 0);
        lemma_cover_room(s, 0, wind as int, org, area0, cover0, area@, cover@);
        lemma_rise_per_column(s);
    }

    // fy increment per pixel column, the same for each full column.
    let delta_fy: i32 = (ONE_PIXEL as i64 * total_dy / run) as i32;

    // Right-to-left edge.
    let x_b: i32 = clamp_i64_to_i32(cx0 as i64 * ONE_PIXEL as i64);
    let lead: i64 = x0 as i64 - x_b as i64;
    let mut fy_b: i32 = fy0 + (lead * total_dy / run) as i32;
    cell_add(area, cover, cx0 - x_org, fx0, fy0, 0, fy_b, wind, x_min, x_max);
    proof {
        lemma_walk_step(s, 0, wind as int, org, area0, cover0, area0, cover0, area@, cover@);
    }

    let mut fy_prev: i32 = fy_b;
    let mut cx: i32 = cx0 - 1;
    while cx > cx1
        invariant
            s == spec_span(x0, fy0, x1, fy1),
            s.last() < s.first(),
            cx0 == s.first(),
            cx1 == s.last(),
            org == x_org,
            cx0 > cx >= cx1,
            fy_prev == s.y_in(cx0 - cx),
            delta_fy == 256 * s.rise() / s.run(),
            0 <= delta_fy <= 65536,
            span_fits(s, wind as int, org, area0, cover0),
            walked(s, cx0 - cx, wind as int, org, area0, cover0, area@, cover@),
            *x_min == min_touched(x_min0, cx + 1 - x_org, area0.len() as int),
            *x_max == max_touched(x_max0, cx + 1 - x_org, cx0 - x_org, area0.len() as int),
        decreases cx - cx1,
    {
        let ghost k = cx0 - cx;
        let ghost area1 = area@;
        let ghost cover1 = cover@;
        proof {
            lemma_piece_fits(s, wind as int, k);
            lemma_cover_room(s, k, wind as int, org, area0, cover0, area@, cover@);
            lemma_next_level(s, k);
        }
        fy_b = fy_prev + delta_fy;
        cell_add(area, cover, cx - x_org, ONE_PIXEL, fy_prev, 0, fy_b, wind, x_min, x_max);
        proof {
            lemma_walk_step(
                s,
                k,
                wind as int,
                org,
                area0,
                cover0,
                area1,
                cover1,
                area@,
                cover@,
            );
        }
        fy_prev = fy_b;
        cx = cx - 1;
    }

    let ghost area1 = area@;
    let ghost cover1 = cover@;
    proof {
        lemma_piece_fits(s, wind as int, s.steps());
        lemma_cover_room(s, s.steps(), wind as int, org, area0, cover0, area@, cover@);
    }
    cell_add(area, cover, cx1 - x_org, ONE_PIXEL, fy_prev, fx1, fy1, wind, x_min, x_max);
    proof {
        lemma_walk_step(
            s,
            s.steps(),
            wind as int,
            org,
            area0,
            cover0,
            area1,
            cover1,
            area@,
            cover@,
        );
    }
}

/// Size of the rises that a walk across columns is computed from.
proof fn lemma_rise_per_column(s: Span)
    requires
        s.wf(),
        s.first() != s.last(),
    ensures
        0 < s.run(),
        0 <= s.lead() <= 256,
        0 <= s.lead() * s.rise() <= 65536,
        0 <= 256 * s.rise() <= 65536,
        0 <= s.lead() * s.rise() / s.run() <= 65536,
        0 <= 256 * s.rise() / s.run() <= 65536,
        s.y_in(1) == s.ya + s.lead() * s.rise() / s.run(),
{
    let l = s.lead();
    let r = s.rise();
    let d = s.run();
    assert(0 <= l * r <= 65536) by (nonlinear_arith)
        requires
            0 <= l <= 256,
            0 <= r <= 256,
    ;
    vstd::arithmetic::div_mod::lemma_div_pos_is_pos(l * r, d);
    vstd::arithmetic::div_mod::lemma_div_pos_is_pos(256 * r, d);
    vstd::arithmetic::div_mod::lemma_div_is_ordered_by_denominator(l * r, 1, d);
    vstd::arithmetic::div_mod::lemma_div_is_ordered_by_denominator(256 * r, 1, d);
}

/// Each full column adds the same rise.
proof fn lemma_next_level(s: Span, k: int)
    requires
        1 <= k,
    ensures
        s.y_in(k + 1) == s.y_in(k) + 256 * s.rise() / s.run(),
{
    let q = 256 * s.rise() / s.run();
    assert(k * q == (k - 1) * q + q) by (nonlinear_arith);
}

/// The products that `cell_add` forms for one step of a walk fit their types.
proof fn lemma_piece_fits(s: Span, wind: int, k: int)
    requires
        s.wf(),
        wind == 1 || wind == -1,
        0 <= k <= s.steps(),
    ensures
        ({
            let dy = s.y_out(k) - s.y_in(k);
            let w = s.x_in(k) + s.x_out(k);
            &&& 0 <= s.y_in(k) <= s.y_out(k) <= 256
            &&& 0 <= s.x_in(k) <= 256
            &&& 0 <= s.x_out(k) <= 256
            &&& -256 <= dy * wind <= 256
            &&& 0 <= w * dy <= 131072
            &&& -131072 <= w * dy * wind <= 131072
            &&& s.area(s.column(k)) * wind == w * dy * wind
            &&& s.leftmost() <= s.column(k) <= s.rightmost()
        }),
{
    edge::lemma_levels(s);
    let dy = s.y_out(k) - s.y_in(k);
    let w = s.x_in(k) + s.x_out(k);
    assert(s.ya <= s.y_in(k) <= s.y_out(k) <= s.yb);
    assert(0 <= w * dy <= 131072) by (nonlinear_arith)
        requires
            0 <= w <= 512,
            0 <= dy <= 256,
    ;
}

/// The cover that step `k` of a walk is added to has room for it.
proof fn lemma_cover_room(
    s: Span,
    k: int,
    wind: int,
    x_org: int,
    area0: Seq<i32>,
    cover0: Seq<i32>,
    area: Seq<i32>,
    cover: Seq<i32>,
)
    requires
        span_fits(s, wind, x_org, area0, cover0),
        walked(s, k, wind, x_org, area0, cover0, area, cover),
        0 <= k <= s.steps(),
    ensures
        ({
            let col = s.column(k) - x_org;
            let dy = s.y_out(k) - s.y_in(k);
            &&& col < 0 ==> 0 < cover.len() && fixed::in_i32(cover[0] + dy * wind)
            &&& 0 <= col < area.len() ==> col < cover.len() && fixed::in_i32(
                cover[col] + dy * wind,
            )
        }),
{
    let n = s.steps() + 1;
    let col = s.column(k) - x_org;
    let dy = s.y_out(k) - s.y_in(k);
    let width = area0.len() as int;
    let org = carry_limit(x_org, width);
    if col < 0 || (col == 0 && 0 < width) {
        assert(0 < cover0.len());
        lemma_left_cover_grows(s, k + 1, org);
        let l = left_cover(s, k, org);
        let l1 = left_cover(s, k + 1, org);
        let all = left_cover(s, n, org);
        assert(l1 == l + dy);
        assert(cover[0] == cover0[0] + walked_cover(s, k, wind, x_org, width, 0));
        assert(fixed::in_i32(cover0[0] + walked_cover(s, n, wind, x_org, width, 0)));
        assert((l + dy) * wind == l * wind + dy * wind) by (nonlinear_arith);
        fixed::lemma_signed(l1, wind);
        fixed::lemma_signed(all, wind);
    } else if 0 < col < width {
        assert(x_org + col == s.column(k));
        assert(col < cover0.len());
        assert(cover[col] == cover0[col] + walked_cover(s, k, wind, x_org, width, col));
        assert(fixed::in_i32(cover0[col] + walked_cover(s, n, wind, x_org, width, col)));
    }
}

} // verus!
