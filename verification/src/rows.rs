//! The scanline passes of a rasterizer: bucketing of edges by their first
//! row, the active edge list, and the completion of a row.
use crate::drawing;
use crate::edge::Edge;
use crate::fixed;
use crate::fixed::{clamp_i64_to_i32, pixel_of, ONE_PIXEL};
use crate::scene;
use crate::scene::Extents;
use crate::shade;
use crate::shade::{cell_byte, sweep_row_to_alpha};
use crate::sweep;
use crate::sweep::edge_sweep_row;
use vstd::prelude::*;

verus! {

/// Sort the edges into buckets by their first output row. Edges that start
/// below the output are left out. Buckets keep their storage between calls.
pub(crate) fn bucket_edges(edges: &Vec<Edge>, buckets: &mut Vec<Vec<u32>>, y0: i32, height: usize)
    requires
        edges.len() <= 0x1_0000_0000,
        forall|i: int|
            0 <= i < edges.len() ==> fixed::in_i32(#[trigger] edges[i].yl as int / 256 - y0),
    ensures
        height <= final(buckets).len(),
        forall|r: int|
            0 <= r < height ==> drawing::is_bucket(
                edges@,
                y0 as int,
                r,
                #[trigger] final(buckets)@[r]@,
            ),
{
    let mut r: usize = 0;
    while r < height
        invariant
            r <= height,
            r <= buckets.len(),
            forall|k: int| 0 <= k < r ==> #[trigger] buckets@[k]@ =~= Seq::<u32>::empty(),
        decreases height - r,
    {
        if r < buckets.len() {
            buckets[r].clear();
        } else {
            buckets.push(Vec::new());
        }
        r = r + 1;
    }
    let mut i: usize = 0;
    while i < edges.len()
        invariant
            i <= edges.len() <= 0x1_0000_0000,
            height <= buckets.len(),
            forall|k: int|
                0 <= k < edges.len() ==> fixed::in_i32(#[trigger] edges[k].yl as int / 256 - y0),
            forall|k: int|
                0 <= k < height ==> drawing::is_bucket(
                    edges@.take(i as int),
                    y0 as int,
                    k,
                    #[trigger] buckets@[k]@,
                ),
        decreases edges.len() - i,
    {
        let ghost done = edges@.take(i as int);
        let ghost next = edges@.take(i + 1);
        let ghost before = buckets@;
        let e: Edge = edges[i];
        assert(fixed::in_i32(edges[i as int].yl as int / 256 - y0));
        let mut row: i32 = pixel_of(e.yl) - y0;
        if row < 0 {
            row = 0;
        }
        if (row as usize) < height {
            buckets[row as usize].push(i as u32);
        }
        proof {
            assert forall|k: int| 0 <= k < height implies drawing::is_bucket(
                next,
                y0 as int,
                k,
                #[trigger] buckets@[k]@,
            ) by {
                assert(drawing::is_bucket(done, y0 as int, k, before[k]@));
                lemma_bucket_step(edges@, y0 as int, k, i as int, before[k]@, buckets@[k]@);
            }
        }
        i = i + 1;
    }
    assert(edges@.take(edges.len() as int) =~= edges@);
}

/// One more edge for the bucket of row `row`.
proof fn lemma_bucket_step(
    edges: Seq<Edge>,
    y0: int,
    row: int,
    i: int,
    before: Seq<u32>,
    after: Seq<u32>,
)
    requires
        0 <= i < edges.len() <= 0x1_0000_0000,
        drawing::is_bucket(edges.take(i), y0, row, before),
        after =~= if scene::start_row(edges[i], y0) == row {
            before.push(i as u32)
        } else {
            before
        },
    ensures
        drawing::is_bucket(edges.take(i + 1), y0, row, after),
{
    let done = edges.take(i);
    let next = edges.take(i + 1);
    assert forall|k: int| 0 <= k < before.len() implies #[trigger] before[k] < i
        && scene::start_row(edges[before[k] as int], y0) == row by {
        assert(before.contains(before[k]));
        assert(before.contains((before[k] as int) as u32));
    }
    assert forall|k: int| 0 <= k < next.len() implies (#[trigger] after.contains(k as u32)
        <==> scene::start_row(next[k], y0) == row) by {
        if k < i {
            assert(before.contains(k as u32) <==> scene::start_row(done[k], y0) == row);
            if before.contains(k as u32) {
                let m = choose|m: int| 0 <= m < before.len() && before[m] == k as u32;
                assert(after[m] == k as u32);
            }
            if after.contains(k as u32) {
                let m = choose|m: int| 0 <= m < after.len() && after[m] == k as u32;
                assert(before[m] == k as u32);
            }
        } else {
            if scene::start_row(edges[i], y0) == row {
                assert(after[before.len() as int] == i as u32);
            } else if after.contains(k as u32) {
                let m = choose|m: int| 0 <= m < after.len() && after[m] == k as u32;
                assert(before[m] < i);
            }
        }
    }
}

/// The accumulators hold the edges in `list`, and nothing outside of the
/// touched columns.
spec fn accumulated(
    edges: Seq<Edge>,
    x0: int,
    top: int,
    list: Seq<u32>,
    area: Seq<i32>,
    cover: Seq<i32>,
    x_min: int,
    x_max: int,
) -> bool {
    &&& drawing::holds(edges, x0, top, list, area, cover)
    &&& 0 <= x_max < area.len()
    &&& forall|c: int|
        0 <= c < area.len() && (c < x_min || x_max < c) ==> #[trigger] area[c] == 0
    &&& forall|c: int|
        0 <= c < area.len() && (c < x_min || x_max < c) ==> #[trigger] cover[c] == 0
}

/// Sweep the active edges into the accumulators of output row `row`, and drop
/// the edges that ended above it. Returns the range of touched columns.
pub(crate) fn sweep_active(
    edges: &Vec<Edge>,
    active: &mut Vec<u32>,
    area: &mut Vec<i32>,
    cover: &mut Vec<i32>,
    extents: Extents,
    row: u32,
) -> (touched: (usize, usize))
    requires
        forall|i: int| 0 <= i < edges.len() ==> (#[trigger] edges[i]).wf(),
        0 < edges.len(),
        0 < extents.width,
        row < extents.height,
        scene::fits(edges@, extents),
        drawing::ordered(edges@, extents.y0 as int, old(active)@),
        forall|k: int|
            0 <= k < old(active).len() ==> scene::start_row(
                edges[#[trigger] old(active)@[k] as int],
                extents.y0 as int,
            ) <= row,
        forall|i: int|
            0 <= i < edges.len() && edges[i].meets(extents.row_top(row as int))
                ==> #[trigger] old(active)@.contains(i as u32),
        old(area).len() == extents.width,
        old(cover).len() == extents.width,
        forall|c: int| 0 <= c < extents.width ==> #[trigger] old(area)[c] == 0,
        forall|c: int| 0 <= c < extents.width ==> #[trigger] old(cover)[c] == 0,
    ensures
        drawing::is_active(edges@, extents.y0 as int, extents.row_top(row as int), final(active)@),
        final(area).len() == extents.width,
        final(cover).len() == extents.width,
        touched.1 < extents.width,
        forall|c: int|
            0 <= c < extents.width ==> #[trigger] final(area)[c] == scene::total_area(
                edges@,
                extents.row_top(row as int),
                extents.x0 + c,
            ),
        forall|c: int|
            0 <= c < extents.width ==> #[trigger] final(cover)[c] == scene::total_cover(
                edges@,
                extents.x0 as int,
                extents.row_top(row as int),
                c,
            ),
        forall|c: int|
            0 <= c < extents.width && (c < touched.0 || touched.1 < c) ==> #[trigger] final(area)[c]
                == 0,
        forall|c: int|
            0 <= c < extents.width && (c < touched.0 || touched.1 < c)
                ==> #[trigger] final(cover)[c] == 0,
{
    let y_top: i32 = clamp_i64_to_i32((extents.y0 as i64 + row as i64) * ONE_PIXEL as i64);
    let ghost top = extents.row_top(row as int);
    let ghost x0 = extents.x0 as int;
    let ghost y0 = extents.y0 as int;
    let ghost list = active@;
    let ghost n = edges.len() as int;
    let mut x_min: usize = extents.width as usize;
    let mut x_max: usize = 0;
    let mut write: usize = 0;
    let mut j: usize = 0;
    let ghost mut from: Seq<int> = Seq::empty();
    proof {
        drawing::lemma_holds_nothing(edges@, x0, top, area@, cover@);
        assert(list.take(0) =~= Seq::<u32>::empty());
    }
    while j < active.len()
        invariant
            j <= active.len(),
            write <= j,
            active.len() == list.len(),
            n == edges.len(),
            x0 == extents.x0,
            y0 == extents.y0,
            top == extents.row_top(row as int),
            y_top == fixed::clamp(top, i32::MIN as int, i32::MAX as int),
            forall|i: int| 0 <= i < edges.len() ==> (#[trigger] edges[i]).wf(),
            0 < edges.len(),
            0 < extents.width,
            row < extents.height,
            scene::fits(edges@, extents),
            drawing::ordered(edges@, y0, list),
            forall|k: int|
                0 <= k < list.len() ==> scene::start_row(edges[#[trigger] list[k] as int], y0)
                    <= row,
            forall|i: int|
                0 <= i < edges.len() && edges[i].meets(top) ==> #[trigger] list.contains(i as u32),
            forall|k: int| j <= k < list.len() ==> #[trigger] active@[k] == list[k],
            from.len() == write,
            forall|k: int|
                0 <= k < write ==> {
                    &&& 0 <= #[trigger] from[k] < j
                    &&& active@[k] == list[from[k]]
                    &&& edges[list[from[k]] as int].meets(top)
                },
            forall|a: int, b: int| 0 <= a < b < write ==> #[trigger] from[a] < #[trigger] from[b],
            forall|k: int|
                0 <= k < j && edges[list[k] as int].meets(top) ==> #[trigger] from.contains(k),
            accumulated(
                edges@,
                x0,
                top,
                list.take(j as int),
                area@,
                cover@,
                x_min as int,
                x_max as int,
            ),
            area.len() == extents.width,
        decreases active.len() - j,
    {
        let edge_idx: u32 = active[j];
        assert(edge_idx == list[j as int]);
        let e: Edge = edges[edge_idx as usize];
        proof {
            assert(edges[edge_idx as int].wf());
            drawing::lemma_alive(e, extents, row as int);
        }
        if e.yh > y_top {
            let ghost area1 = area@;
            let ghost cover1 = cover@;
            let ghost x_min1 = x_min as int;
            let ghost x_max1 = x_max as int;
            proof {
                lemma_sweep_fits(edges@, extents, row as int, list, j as int, area@, cover@);
            }
            edge_sweep_row(area, cover, extents.x0, y_top, &e, &mut x_min, &mut x_max);
            active[write] = edge_idx;
            proof {
                lemma_sweep_step(
                    edges@,
                    x0,
                    top,
                    list,
                    j as int,
                    area1,
                    cover1,
                    x_min1,
                    x_max1,
                    area@,
                    cover@,
                    x_min as int,
                    x_max as int,
                );
                let before = from;
                from = from.push(j as int);
                assert forall|k: int|
                    0 <= k < j + 1 && edges[list[k] as int].meets(
                        top,
                    ) implies #[trigger] from.contains(k) by {
                    if k < j {
                        assert(before.contains(k));
                        let a = choose|a: int| 0 <= a < before.len() && before[a] == k;
                        assert(from[a] == k);
                    } else {
                        assert(from[write as int] == k);
                    }
                }
            }
            write = write + 1;
        } else {
            proof {
                drawing::lemma_holds_step(
                    edges@,
                    x0,
                    top,
                    list,
                    j as int,
                    area@,
                    cover@,
                    area@,
                    cover@,
                );
            }
        }
        j = j + 1;
    }
    active.truncate(write);
    proof {
        assert(list.take(j as int) =~= list);
        drawing::lemma_holds_all(edges@, x0, top, list, area@, cover@);
        lemma_compacted(edges@, y0, top, list, active@, from);
    }
    (x_min, x_max)
}

/// The accumulators have room for the next active edge.
proof fn lemma_sweep_fits(
    edges: Seq<Edge>,
    ext: Extents,
    row: int,
    list: Seq<u32>,
    j: int,
    area: Seq<i32>,
    cover: Seq<i32>,
)
    requires
        0 < edges.len(),
        0 < ext.width,
        0 <= row < ext.height,
        scene::fits(edges, ext),
        drawing::ordered(edges, ext.y0 as int, list),
        forall|i: int|
            0 <= i < edges.len() && edges[i].meets(ext.row_top(row)) ==> #[trigger] list.contains(
                i as u32,
            ),
        0 <= j < list.len(),
        edges[list[j] as int].meets(ext.row_top(row)),
        area.len() == ext.width,
        drawing::holds(edges, ext.x0 as int, ext.row_top(row), list.take(j), area, cover),
    ensures
        ext.row_top(row) + 256 <= i32::MAX,
        fixed::in_i32(edges[list[j] as int].span(ext.row_top(row)).leftmost() - ext.x0),
        fixed::in_i32(edges[list[j] as int].span(ext.row_top(row)).rightmost() - ext.x0),
        forall|c: int|
            0 <= c < area.len() ==> fixed::in_i32(
                #[trigger] area[c] + edges[list[j] as int].area(ext.row_top(row), ext.x0 + c),
            ),
        forall|c: int|
            0 <= c < cover.len() ==> fixed::in_i32(
                #[trigger] cover[c] + sweep::column_cover(
                    edges[list[j] as int],
                    ext.row_top(row),
                    ext.x0 as int,
                    area.len() as int,
                    c,
                ),
            ),
{
    let top = ext.row_top(row);
    let y0 = ext.y0 as int;
    let i = list[j] as int;
    assert(scene::row_fits(edges, ext, row));
    assert forall|c: int| 0 <= c < area.len() implies fixed::in_i32(
        #[trigger] area[c] + edges[i].area(top, ext.x0 + c),
    ) by {
        drawing::lemma_area_at(edges, ext, row, list, j, c);
        assert(fixed::in_i32(scene::partial_area(edges, y0, top, ext.x0 + c, i)));
    }
    let x0 = ext.x0 as int;
    assert forall|c: int| 0 <= c < cover.len() implies fixed::in_i32(
        #[trigger] cover[c] + sweep::column_cover(edges[i], top, x0, area.len() as int, c),
    ) by {
        drawing::lemma_cover_at(edges, ext, row, list, j, c);
        assert(fixed::in_i32(scene::partial_cover(edges, x0, y0, top, c, i)));
    }
}

/// The accumulators after one more active edge.
proof fn lemma_sweep_step(
    edges: Seq<Edge>,
    x0: int,
    top: int,
    list: Seq<u32>,
    j: int,
    area1: Seq<i32>,
    cover1: Seq<i32>,
    x_min1: int,
    x_max1: int,
    area2: Seq<i32>,
    cover2: Seq<i32>,
    x_min2: int,
    x_max2: int,
)
    requires
        edges.len() <= 0x1_0000_0000,
        0 <= j < list.len(),
        list[j] < edges.len(),
        forall|a: int| 0 <= a < j ==> #[trigger] list[a] != list[j],
        edges[list[j] as int].meets(top),
        accumulated(edges, x0, top, list.take(j), area1, cover1, x_min1, x_max1),
        area2.len() == area1.len(),
        cover2.len() == cover1.len(),
        forall|c: int|
            0 <= c < area1.len() ==> #[trigger] area2[c] == area1[c] + edges[list[j] as int].area(
                top,
                x0 + c,
            ),
        forall|c: int|
            0 <= c < cover1.len() ==> #[trigger] cover2[c] == cover1[c] + sweep::column_cover(
                edges[list[j] as int],
                top,
                x0,
                area1.len() as int,
                c,
            ),
        x_min2 == sweep::min_touched(
            x_min1,
            edges[list[j] as int].span(top).leftmost() - x0,
            area1.len() as int,
        ),
        x_max2 == sweep::max_touched(
            x_max1,
            edges[list[j] as int].span(top).leftmost() - x0,
            edges[list[j] as int].span(top).rightmost() - x0,
            area1.len() as int,
        ),
        0 <= x_min1,
    ensures
        accumulated(edges, x0, top, list.take(j + 1), area2, cover2, x_min2, x_max2),
{
    let i = list[j] as int;
    drawing::lemma_holds_step(edges, x0, top, list, j, area1, cover1, area2, cover2);
    let s = edges[i].span(top);
    assert forall|c: int| 0 <= c < area2.len() && (c < x_min2 || x_max2 < c) implies #[trigger] area2[c]
        == 0 by {
        assert(area1[c] == 0);
        assert(!(s.leftmost() <= x0 + c <= s.rightmost()));
    }
    assert forall|c: int|
        0 <= c < area2.len() && (c < x_min2 || x_max2 < c) implies #[trigger] cover2[c] == 0 by {
        assert(cover1[c] == 0);
        assert(!(s.leftmost() <= x0 + c <= s.rightmost()));
        assert(c == 0 ==> x0 < s.leftmost());
    }
}

/// The compacted list holds exactly the edges that meet the row.
proof fn lemma_compacted(
    edges: Seq<Edge>,
    y0: int,
    top: int,
    list: Seq<u32>,
    active: Seq<u32>,
    from: Seq<int>,
)
    requires
        edges.len() <= 0x1_0000_0000,
        drawing::ordered(edges, y0, list),
        active.len() == from.len(),
        forall|k: int|
            0 <= k < from.len() ==> {
                &&& 0 <= #[trigger] from[k] < list.len()
                &&& active[k] == list[from[k]]
                &&& edges[list[from[k]] as int].meets(top)
            },
        forall|a: int, b: int| 0 <= a < b < from.len() ==> #[trigger] from[a] < #[trigger] from[b],
        forall|k: int|
            0 <= k < list.len() && edges[list[k] as int].meets(top) ==> #[trigger] from.contains(k),
        forall|i: int|
            0 <= i < edges.len() && edges[i].meets(top) ==> #[trigger] list.contains(i as u32),
    ensures
        drawing::is_active(edges, y0, top, active),
{
    assert forall|i: int| 0 <= i < edges.len() implies (#[trigger] active.contains(i as u32)
        <==> edges[i].meets(top)) by {
        if active.contains(i as u32) {
            let k = choose|k: int| 0 <= k < active.len() && active[k] == i as u32;
            assert(edges[list[from[k]] as int].meets(top));
        }
        if edges[i].meets(top) {
            assert(list.contains(i as u32));
            let k = choose|k: int| 0 <= k < list.len() && list[k] == i as u32;
            assert(from.contains(k));
            let a = choose|a: int| 0 <= a < from.len() && from[a] == k;
            assert(active[a] == i as u32);
        }
    }
    assert forall|a: int, b: int| 0 <= a < b < active.len() implies #[trigger] active[a]
        != #[trigger] active[b] && scene::drawn_by(edges, y0, active[a] as int, active[b] as int) by {
        assert(from[a] < from[b]);
    }
    assert forall|k: int| 0 <= k < active.len() implies #[trigger] active[k] < edges.len() by {
        assert(0 <= from[k]);
    }
}

/// Sums of covers from two starting points, with nothing in between.
proof fn lemma_cover_sum_from(cover: Seq<i32>, a: int, b: int, to: int)
    requires
        0 <= a <= b,
        to <= cover.len(),
        forall|x: int| a <= x < b && x < to ==> #[trigger] cover[x] == 0,
    ensures
        shade::cover_sum(cover, a, to) == shade::cover_sum(cover, b, to),
    decreases to - a,
{
    if a < to {
        lemma_cover_sum_from(cover, a, b, to - 1);
    }
}

/// Sums of covers that end beyond the last cover.
proof fn lemma_cover_sum_to(cover: Seq<i32>, a: int, b: int, to: int)
    requires
        0 <= a <= b <= to <= cover.len(),
        forall|x: int| b <= x < to ==> #[trigger] cover[x] == 0,
    ensures
        shade::cover_sum(cover, a, to) == shade::cover_sum(cover, a, b),
    decreases to - b,
{
    if b < to {
        lemma_cover_sum_to(cover, a, b, to - 1);
    }
}

/// Convert a row's accumulators to bytes and clear them. Outside of the
/// touched columns `x_min ..= x_max` the accumulators are known to be zero.
pub(crate) fn finish_row(
    row_buf: &mut [u8],
    area: &mut Vec<i32>,
    cover: &mut Vec<i32>,
    x_min: usize,
    x_max: usize,
)
    requires
        old(area).len() == old(row_buf).len(),
        old(cover).len() == old(row_buf).len(),
        x_max < old(row_buf).len(),
        forall|c: int| 0 <= c < old(row_buf).len() ==> #[trigger] old(row_buf)[c] == 0,
        forall|c: int|
            0 <= c < old(row_buf).len() && (c < x_min || x_max < c) ==> #[trigger] old(area)[c] == 0,
        forall|c: int|
            0 <= c < old(row_buf).len() && (c < x_min || x_max < c)
                ==> #[trigger] old(cover)[c] == 0,
        forall|c: int|
            0 <= c < old(row_buf).len() ==> fixed::in_i32(
                #[trigger] shade::cover_sum(old(cover)@, 0, c + 1),
            ),
    ensures
        final(row_buf).len() == old(row_buf).len(),
        final(area).len() == old(area).len(),
        final(cover).len() == old(cover).len(),
        forall|c: int|
            0 <= c < old(row_buf).len() ==> #[trigger] final(row_buf)[c] == fixed::alpha_byte(
                shade::cell_alpha(
                    shade::cover_sum(old(cover)@, 0, c + 1),
                    old(area)[c] as int,
                ),
            ),
        forall|c: int| 0 <= c < old(row_buf).len() ==> #[trigger] final(area)[c] == 0,
        forall|c: int| 0 <= c < old(row_buf).len() ==> #[trigger] final(cover)[c] == 0,
{
    let width: usize = row_buf.len();
    let ghost area0 = area@;
    let ghost cover0 = cover@;
    proof {
        assert forall|c: int|
            0 <= c < width && (c < x_min || x_max < x_min) implies #[trigger] shade::cover_sum(
            cover0,
            0,
            c + 1,
        ) == 0 by {
            lemma_cover_sum_from(cover0, 0, c + 1, c + 1);
        }
    }
    if x_min > x_max {
        return ;
    }
    proof {
        assert forall|x: int| x_min <= x < width implies #[trigger] shade::cover_sum(
            cover0,
            0,
            x + 1,
        ) == shade::cover_sum(cover0, x_min as int, x + 1) by {
            lemma_cover_sum_from(cover0, 0, x_min as int, x + 1);
        }
        assert forall|x: int| x_min <= x <= x_max implies fixed::in_i32(
            #[trigger] shade::cover_sum(cover0, x_min as int, x + 1),
        ) by {
            assert(shade::cover_sum(cover0, 0, x + 1) == shade::cover_sum(
                cover0,
                x_min as int,
                x + 1,
            ));
        }
        assert forall|c: int| x_max < c < width implies #[trigger] shade::cover_sum(
            cover0,
            0,
            c + 1,
        ) == shade::cover_sum(cover0, x_min as int, x_max + 1) by {
            lemma_cover_sum_to(cover0, 0, x_max + 1, c + 1);
            assert(shade::cover_sum(cover0, 0, x_max + 1) == shade::cover_sum(
                cover0,
                x_min as int,
                x_max + 1,
            ));
        }
    }
    let cover_accum: i32 = sweep_row_to_alpha(row_buf, area, cover, x_min, x_max);

    // If cover doesn't cancel, fill the constant-alpha tail.
    if cover_accum != 0 {
        let byte: u8 = cell_byte(cover_accum, 0);
        let ghost swept = row_buf@;
        let mut x: usize = x_max + 1;
        while x < width
            invariant
                x_max < x <= width,
                width == row_buf.len(),
                swept.len() == width,
                forall|c: int|
                    0 <= c < width ==> #[trigger] row_buf[c] == if x_max < c < x {
                        byte
                    } else {
                        swept[c]
                    },
            decreases width - x,
        {
            row_buf[x] = byte;
            x = x + 1;
        }
    }
}

/// The covers of a row sum to the accumulated cover of its edges.
pub proof fn lemma_accumulated(
    edges: Seq<Edge>,
    x0: int,
    top: int,
    cover: Seq<i32>,
    c: int,
)
    requires
        -1 <= c < cover.len(),
        forall|k: int|
            0 <= k < cover.len() ==> #[trigger] cover[k] == scene::total_cover(edges, x0, top, k),
    ensures
        shade::cover_sum(cover, 0, c + 1) == scene::accumulated_cover(edges, x0, top, c),
    decreases c + 1,
{
    if c >= 0 {
        lemma_accumulated(edges, x0, top, cover, c - 1);
    }
}

/// A row's accumulated covers fit 32 bits, and its sums give its pixels.
pub proof fn lemma_row_fits(
    edges: Seq<Edge>,
    ext: Extents,
    row: int,
    area: Seq<i32>,
    cover: Seq<i32>,
)
    requires
        0 < edges.len(),
        0 < ext.width,
        0 <= row < ext.height,
        scene::fits(edges, ext),
        area.len() == ext.width,
        cover.len() == ext.width,
        forall|c: int|
            0 <= c < ext.width ==> #[trigger] area[c] == scene::total_area(
                edges,
                ext.row_top(row),
                ext.x0 + c,
            ),
        forall|c: int|
            0 <= c < ext.width ==> #[trigger] cover[c] == scene::total_cover(
                edges,
                ext.x0 as int,
                ext.row_top(row),
                c,
            ),
    ensures
        forall|c: int|
            0 <= c < ext.width ==> fixed::in_i32(#[trigger] shade::cover_sum(cover, 0, c + 1)),
        forall|c: int|
            0 <= c < ext.width ==> fixed::alpha_byte(
                shade::cell_alpha(shade::cover_sum(cover, 0, c + 1), #[trigger] area[c] as int),
            ) == scene::pixel(edges, ext, row, c),
{
    let top = ext.row_top(row);
    assert(scene::row_fits(edges, ext, row));
    assert forall|c: int| 0 <= c < ext.width implies shade::cover_sum(cover, 0, c + 1)
        == #[trigger] scene::accumulated_cover(edges, ext.x0 as int, top, c) by {
        lemma_accumulated(edges, ext.x0 as int, top, cover, c);
    }
    assert forall|c: int| 0 <= c < ext.width implies fixed::in_i32(
        #[trigger] shade::cover_sum(cover, 0, c + 1),
    ) by {
        let accum = scene::accumulated_cover(edges, ext.x0 as int, top, c);
        assert(shade::cover_sum(cover, 0, c + 1) == accum);
    }
    assert forall|c: int| 0 <= c < ext.width implies fixed::alpha_byte(
        shade::cell_alpha(shade::cover_sum(cover, 0, c + 1), #[trigger] area[c] as int),
    ) == scene::pixel(edges, ext, row, c) by {
        let accum = scene::accumulated_cover(edges, ext.x0 as int, top, c);
        assert(shade::cover_sum(cover, 0, c + 1) == accum);
    }
}

} // verus!
