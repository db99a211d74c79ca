//! Run-time test of whether a scene fits the types that it is drawn with.
use crate::drawing;
use crate::edge::Edge;
use crate::fixed;
use crate::fixed::{pixel_of, ONE_PIXEL};
use crate::rows;
use crate::rows::bucket_edges;
use crate::scene;
use crate::scene::Extents;
use crate::shade;
use crate::sum;
use crate::sweep;
use crate::sweep::{clip_to_row, edge_sweep_row};
use vstd::prelude::*;

verus! {

/// Whether `v` is representable as an `i32`.
fn is_i32(v: i64) -> (r: bool)
    ensures
        r == fixed::in_i32(v as int),
{
    i32::MIN as i64 <= v && v <= i32::MAX as i64
}

/// Whether the covers of a row, added up from the left, stay within 32 bits.
fn sums_fit(cover: &Vec<i32>) -> (r: bool)
    ensures
        r == (forall|c: int|
            0 <= c < cover.len() ==> fixed::in_i32(#[trigger] shade::cover_sum(cover@, 0, c + 1))),
{
    let mut accum: i64 = 0;
    let mut c: usize = 0;
    while c < cover.len()
        invariant
            c <= cover.len(),
            accum == shade::cover_sum(cover@, 0, c as int),
            fixed::in_i32(accum as int),
            forall|k: int|
                0 <= k < c ==> fixed::in_i32(#[trigger] shade::cover_sum(cover@, 0, k + 1)),
        decreases cover.len() - c,
    {
        assert(shade::cover_sum(cover@, 0, c + 1) == accum + cover@[c as int]);
        accum = accum + cover[c] as i64;
        if !is_i32(accum) {
            return false;
        }
        c = c + 1;
    }
    true
}

/// Add `terms` to `sums` and clear it, up to the first sum that would leave the
/// 32-bit range. Returns whether there is none.
fn add_terms(sums: &mut Vec<i32>, terms: &mut Vec<i32>) -> (r: bool)
    requires
        old(sums).len() == old(terms).len(),
    ensures
        r == (forall|c: int|
            0 <= c < old(sums).len() ==> fixed::in_i32(#[trigger] old(sums)[c] + old(terms)[c])),
        final(sums).len() == old(sums).len(),
        final(terms).len() == old(sums).len(),
        r ==> forall|c: int|
            0 <= c < old(sums).len() ==> #[trigger] final(sums)[c] == old(sums)[c] + old(terms)[c],
        r ==> forall|c: int| 0 <= c < old(sums).len() ==> #[trigger] final(terms)[c] == 0,
{
    let ghost sums0 = sums@;
    let ghost terms0 = terms@;
    let n: usize = sums.len();
    let mut c: usize = 0;
    while c < n
        invariant
            c <= n,
            n == sums0.len(),
            n == terms0.len(),
            sums.len() == n,
            terms.len() == n,
            sums0 == old(sums)@,
            terms0 == old(terms)@,
            forall|k: int| 0 <= k < c ==> fixed::in_i32(#[trigger] sums0[k] + terms0[k]),
            forall|k: int|
                0 <= k < n ==> #[trigger] sums[k] == sums0[k] + if k < c {
                    terms0[k] as int
                } else {
                    0
                },
            forall|k: int|
                0 <= k < n ==> #[trigger] terms[k] == if k < c {
                    0
                } else {
                    terms0[k]
                },
        decreases n - c,
    {
        assert(sums[c as int] == sums0[c as int]);
        assert(terms[c as int] == terms0[c as int]);
        let sum: i64 = sums[c] as i64 + terms[c] as i64;
        if !is_i32(sum) {
            assert(!fixed::in_i32(old(sums)[c as int] + old(terms)[c as int]));
            return false;
        }
        sums[c] = sum as i32;
        terms[c] = 0;
        c = c + 1;
    }
    true
}

/// The indices of the edges in drawing order. Edges that start below the
/// output are left out.
fn drawing_order(edges: &Vec<Edge>, y0: i32, height: u32) -> (list: Vec<u32>)
    requires
        edges.len() <= 0x1_0000_0000,
        scene::starts_fit(edges@, y0 as int),
    ensures
        drawing::ordered(edges@, y0 as int, list@),
        forall|i: int|
            0 <= i < edges.len() && scene::start_row(edges[i], y0 as int) < height
                ==> #[trigger] list@.contains(i as u32),
{
    let mut buckets: Vec<Vec<u32>> = Vec::new();
    bucket_edges(edges, &mut buckets, y0, height as usize);
    let mut list: Vec<u32> = Vec::new();
    let mut row: u32 = 0;
    while row < height
        invariant
            row <= height,
            height <= buckets.len(),
            edges.len() <= 0x1_0000_0000,
            forall|r: int|
                0 <= r < height ==> drawing::is_bucket(
                    edges@,
                    y0 as int,
                    r,
                    #[trigger] buckets@[r]@,
                ),
            drawing::ordered(edges@, y0 as int, list@),
            forall|i: int|
                0 <= i < edges.len() ==> (#[trigger] list@.contains(i as u32)
                    <==> scene::start_row(edges[i], y0 as int) < row),
        decreases height - row,
    {
        let ghost before = list@;
        let ghost bucket = buckets@[row as int]@;
        list.extend_from_slice(&buckets[row as usize]);
        proof {
            assert(drawing::is_bucket(edges@, y0 as int, row as int, bucket));
            assert forall|k: int| 0 <= k < before.len() implies scene::start_row(
                edges[#[trigger] before[k] as int],
                y0 as int,
            ) < row by {
                assert(before.contains((before[k] as int) as u32));
            }
            drawing::lemma_append_bucket(
                edges@,
                y0 as int,
                row as int,
                before,
                bucket,
                list@,
            );
            assert forall|i: int| 0 <= i < edges.len() implies (#[trigger] list@.contains(i as u32)
                <==> scene::start_row(edges[i], y0 as int) < row + 1) by {
                assert(before.contains(i as u32) <==> scene::start_row(edges[i], y0 as int) < row);
                assert(bucket.contains(i as u32) <==> scene::start_row(edges[i], y0 as int) == row);
            }
        }
        row = row + 1;
    }
    list
}

/// The sums after each of the first `m` edges of `list` are within 32 bits.
spec fn prefixes_fit(
    edges: Seq<Edge>,
    x0: int,
    top: int,
    list: Seq<u32>,
    m: int,
    width: int,
) -> bool {
    &&& forall|k: int, c: int|
        0 <= k <= m && 0 <= c < width ==> fixed::in_i32(
            #[trigger] drawing::drawn(
                edges.len() as int,
                list.take(k),
                drawing::area_terms(edges, top, x0 + c),
            ),
        )
    &&& forall|k: int, c: int|
        0 <= k <= m && 0 <= c < width ==> fixed::in_i32(
            #[trigger] drawing::drawn(
                edges.len() as int,
                list.take(k),
                drawing::cover_terms(edges, x0, top, c),
            ),
        )
}

/// Whether drawing the edges into output row `row` stays within the types used
/// for it. `order` lists the edges in drawing order.
fn row_fits(edges: &Vec<Edge>, order: &Vec<u32>, extents: Extents, row: u32) -> (r: bool)
    requires
        scene::all_wf(edges@),
        0 < edges.len() <= 0x1_0000_0000,
        0 < extents.width,
        row < extents.height,
        drawing::ordered(edges@, extents.y0 as int, order@),
        forall|i: int|
            0 <= i < edges.len() && edges[i].meets(extents.row_top(row as int))
                ==> #[trigger] order@.contains(i as u32),
    ensures
        r == scene::row_fits(edges@, extents, row as int),
{
    let width: usize = extents.width as usize;
    let top: i64 = (extents.y0 as i64 + row as i64) * ONE_PIXEL as i64;
    let ghost n = edges.len() as int;
    let ghost x0 = extents.x0 as int;
    let ghost list = order@;
    let mut area: Vec<i32> = Vec::new();
    area.resize(width, 0);
    let mut cover: Vec<i32> = Vec::new();
    cover.resize(width, 0);
    let mut edge_area: Vec<i32> = Vec::new();
    edge_area.resize(width, 0);
    let mut edge_cover: Vec<i32> = Vec::new();
    edge_cover.resize(width, 0);
    proof {
        drawing::lemma_holds_nothing(edges@, x0, top as int, area@, cover@);
        assert(list.take(0) =~= Seq::<u32>::empty());
        assert(prefixes_fit(edges@, x0, top as int, list, -1, width as int));
        lemma_prefixes_step(edges@, x0, top as int, list, -1, area@, cover@);
    }
    let mut j: usize = 0;
    while j < order.len()
        invariant
            j <= order.len(),
            list == order@,
            n == edges.len(),
            x0 == extents.x0,
            top == extents.row_top(row as int),
            scene::all_wf(edges@),
            0 < edges.len() <= 0x1_0000_0000,
            0 < extents.width,
            width == extents.width,
            row < extents.height,
            drawing::ordered(edges@, extents.y0 as int, list),
            forall|i: int|
                0 <= i < edges.len() && edges[i].meets(top as int) ==> #[trigger] list.contains(
                    i as u32,
                ),
            area.len() == width,
            cover.len() == width,
            edge_area.len() == width,
            edge_cover.len() == width,
            forall|c: int| 0 <= c < width ==> #[trigger] edge_area[c] == 0,
            forall|c: int| 0 <= c < width ==> #[trigger] edge_cover[c] == 0,
            drawing::holds(edges@, x0, top as int, list.take(j as int), area@, cover@),
            prefixes_fit(edges@, x0, top as int, list, j as int, width as int),
            forall|k: int|
                0 <= k < j && edges[#[trigger] list[k] as int].meets(top as int) ==> {
                    let s = edges[list[k] as int].span(top as int);
                    &&& top + 256 <= i32::MAX
                    &&& fixed::in_i32(s.leftmost() - x0)
                    &&& fixed::in_i32(s.rightmost() - x0)
                },
        decreases order.len() - j,
    {
        let i: u32 = order[j];
        let e: Edge = edges[i as usize];
        assert(e == edges@[i as int] && e.wf());
        let bottom: i64 = top + ONE_PIXEL as i64;
        let ghost area1 = area@;
        let ghost cover1 = cover@;
        if (e.yl as i64) < bottom && top < e.yh as i64 {
            assert(e.meets(top as int));
            if bottom > i32::MAX as i64 {
                return false;
            }
            let y_top: i32 = top as i32;
            if let Some((xa, _, xb, _)) = clip_to_row(&e, y_top) {
                if !is_i32(pixel_of(xa) as i64 - extents.x0 as i64) || !is_i32(
                    pixel_of(xb) as i64 - extents.x0 as i64,
                ) {
                    return false;
                }
            }
            let mut x_min: usize = width;
            let mut x_max: usize = 0;
            proof {
                lemma_edge_alone(e, x0, top as int, edge_area@, edge_cover@);
            }
            edge_sweep_row(
                &mut edge_area,
                &mut edge_cover,
                extents.x0,
                y_top,
                &e,
                &mut x_min,
                &mut x_max,
            );
            let ghost edge_area1 = edge_area@;
            let ghost edge_cover1 = edge_cover@;
            if !add_terms(&mut area, &mut edge_area) {
                proof {
                    let c = choose|c: int|
                        0 <= c < width && !fixed::in_i32(#[trigger] area1[c] + edge_area1[c]);
                    assert(edge_area1[c] == e.area(top as int, x0 + c));
                    drawing::lemma_area_at(edges@, extents, row as int, list, j as int, c);
                }
                return false;
            }
            if !add_terms(&mut cover, &mut edge_cover) {
                proof {
                    let c = choose|c: int|
                        0 <= c < width && !fixed::in_i32(#[trigger] cover1[c] + edge_cover1[c]);
                    assert(edge_cover1[c] == scene::edge_column_cover(
                        e,
                        x0,
                        top as int,
                        c,
                    ));
                    drawing::lemma_cover_at(edges@, extents, row as int, list, j as int, c);
                }
                return false;
            }
            proof {
                assert forall|c: int| 0 <= c < width implies #[trigger] area@[c] == area1[c]
                    + e.area(top as int, x0 + c) by {
                    assert(edge_area1[c] == e.area(top as int, x0 + c));
                }
                assert forall|c: int| 0 <= c < width implies #[trigger] cover@[c] == cover1[c]
                    + scene::edge_column_cover(e, x0, top as int, c) by {
                    assert(edge_cover1[c] == scene::edge_column_cover(e, x0, top as int, c));
                }
            }
        }
        proof {
            drawing::lemma_holds_step(
                edges@,
                x0,
                top as int,
                list,
                j as int,
                area1,
                cover1,
                area@,
                cover@,
            );
            lemma_prefixes_step(edges@, x0, top as int, list, j as int, area@, cover@);
        }
        j = j + 1;
    }
    proof {
        assert(list.take(j as int) =~= list);
        lemma_row_verdict(edges@, extents, row as int, list, area@, cover@);
    }
    sums_fit(&cover)
}

/// Fresh accumulators have room for any edge.
proof fn lemma_edge_alone(e: Edge, x0: int, top: int, area: Seq<i32>, cover: Seq<i32>)
    requires
        e.wf(),
        forall|c: int| 0 <= c < area.len() ==> #[trigger] area[c] == 0,
        forall|c: int| 0 <= c < cover.len() ==> #[trigger] cover[c] == 0,
    ensures
        forall|c: int|
            0 <= c < area.len() ==> fixed::in_i32(#[trigger] area[c] + e.area(top, x0 + c)),
        forall|c: int|
            0 <= c < cover.len() ==> fixed::in_i32(
                #[trigger] cover[c] + sweep::column_cover(e, top, x0, area.len() as int, c),
            ),
{
    assert forall|c: int| 0 <= c < area.len() implies fixed::in_i32(
        #[trigger] area[c] + e.area(top, x0 + c),
    ) by {
        scene::lemma_edge_bounds(e, top, x0 + c);
    }
    assert forall|c: int| 0 <= c < cover.len() implies fixed::in_i32(
        #[trigger] cover[c] + sweep::column_cover(e, top, x0, area.len() as int, c),
    ) by {
        scene::lemma_edge_bounds(e, top, x0 + c);
        scene::lemma_edge_bounds(e, top, sweep::carry_limit(x0, area.len() as int));
    }
}

/// One more prefix whose sums fit.
proof fn lemma_prefixes_step(
    edges: Seq<Edge>,
    x0: int,
    top: int,
    list: Seq<u32>,
    j: int,
    area: Seq<i32>,
    cover: Seq<i32>,
)
    requires
        drawing::holds(edges, x0, top, list.take(j + 1), area, cover),
        prefixes_fit(edges, x0, top, list, j, area.len() as int),
    ensures
        prefixes_fit(edges, x0, top, list, j + 1, area.len() as int),
{
    assert forall|k: int, c: int|
        0 <= k <= j + 1 && 0 <= c < area.len() implies fixed::in_i32(
        #[trigger] drawing::drawn(
            edges.len() as int,
            list.take(k),
            drawing::area_terms(edges, top, x0 + c),
        ),
    ) by {
        if k == j + 1 {
            assert(fixed::in_i32(area[c] as int));
        }
    }
    assert forall|k: int, c: int|
        0 <= k <= j + 1 && 0 <= c < area.len() implies fixed::in_i32(
        #[trigger] drawing::drawn(
            edges.len() as int,
            list.take(k),
            drawing::cover_terms(edges, x0, top, c),
        ),
    ) by {
        if k == j + 1 {
            assert(fixed::in_i32(cover[c] as int));
        }
    }
}

/// Once all edges have been drawn, only the accumulated covers are left to
/// test.
proof fn lemma_row_verdict(
    edges: Seq<Edge>,
    ext: Extents,
    row: int,
    list: Seq<u32>,
    area: Seq<i32>,
    cover: Seq<i32>,
)
    requires
        edges.len() <= 0x1_0000_0000,
        0 < ext.width,
        area.len() == ext.width,
        drawing::ordered(edges, ext.y0 as int, list),
        forall|i: int|
            0 <= i < edges.len() && edges[i].meets(ext.row_top(row)) ==> #[trigger] list.contains(
                i as u32,
            ),
        drawing::holds(edges, ext.x0 as int, ext.row_top(row), list, area, cover),
        prefixes_fit(
            edges,
            ext.x0 as int,
            ext.row_top(row),
            list,
            list.len() as int,
            ext.width as int,
        ),
        forall|k: int|
            0 <= k < list.len() && edges[#[trigger] list[k] as int].meets(ext.row_top(row)) ==> {
                let s = edges[list[k] as int].span(ext.row_top(row));
                &&& ext.row_top(row) + 256 <= i32::MAX
                &&& fixed::in_i32(s.leftmost() - ext.x0)
                &&& fixed::in_i32(s.rightmost() - ext.x0)
            },
    ensures
        scene::row_fits(edges, ext, row) <==> forall|c: int|
            0 <= c < cover.len() ==> fixed::in_i32(#[trigger] shade::cover_sum(cover, 0, c + 1)),
{
    let n = edges.len() as int;
    let x0 = ext.x0 as int;
    let y0 = ext.y0 as int;
    let top = ext.row_top(row);
    assert forall|i: int| 0 <= i < n && #[trigger] edges[i].meets(top) implies {
        &&& top + 256 <= i32::MAX
        &&& fixed::in_i32(edges[i].span(top).leftmost() - ext.x0)
        &&& fixed::in_i32(edges[i].span(top).rightmost() - ext.x0)
    } by {
        assert(list.contains(i as u32));
        let k = choose|k: int| 0 <= k < list.len() && list[k] == i as u32;
        assert(edges[list[k] as int].meets(top));
    }
    assert forall|c: int, i: int| 0 <= c < ext.width && 0 <= i < n implies fixed::in_i32(
        #[trigger] scene::partial_area(edges, y0, top, ext.x0 + c, i),
    ) by {
        let f = drawing::area_terms(edges, top, ext.x0 + c);
        let m = drawing::lemma_prefix(edges, y0, list, list.len() as int, i);
        drawing::lemma_drawn_prefix(edges, y0, list, i, m, f);
        sum::lemma_sum_eq(
            n,
            |k: int|
                if scene::drawn_by(edges, y0, k, i) {
                    f(k)
                } else {
                    0
                },
            |k: int|
                if scene::drawn_by(edges, y0, k, i) {
                    edges[k].area(top, ext.x0 + c)
                } else {
                    0
                },
        );
        assert(fixed::in_i32(drawing::drawn(n, list.take(m), f)));
    }
    assert forall|c: int, i: int| 0 <= c < ext.width && 0 <= i < n implies fixed::in_i32(
        #[trigger] scene::partial_cover(edges, x0, y0, top, c, i),
    ) by {
        let f = drawing::cover_terms(edges, x0, top, c);
        let m = drawing::lemma_prefix(edges, y0, list, list.len() as int, i);
        drawing::lemma_drawn_prefix(edges, y0, list, i, m, f);
        sum::lemma_sum_eq(
            n,
            |k: int|
                if scene::drawn_by(edges, y0, k, i) {
                    f(k)
                } else {
                    0
                },
            |k: int|
                if scene::drawn_by(edges, y0, k, i) {
                    scene::edge_column_cover(edges[k], x0, top, c)
                } else {
                    0
                },
        );
        assert(fixed::in_i32(drawing::drawn(n, list.take(m), f)));
    }
    drawing::lemma_holds_all(edges, x0, top, list, area, cover);
    assert forall|c: int| 0 <= c < cover.len() implies #[trigger] shade::cover_sum(cover, 0, c + 1)
        == scene::accumulated_cover(edges, x0, top, c) by {
        rows::lemma_accumulated(edges, x0, top, cover, c);
    }
    if forall|c: int|
        0 <= c < cover.len() ==> fixed::in_i32(#[trigger] shade::cover_sum(cover, 0, c + 1)) {
        assert forall|c: int| 0 <= c < ext.width implies fixed::in_i32(
            #[trigger] scene::accumulated_cover(edges, x0, top, c),
        ) by {
            assert(fixed::in_i32(shade::cover_sum(cover, 0, c + 1)));
        }
    }
}

/// Whether drawing the edges into the extents stays within the types used for
/// it.
pub(crate) fn scene_fits(edges: &Vec<Edge>, extents: Extents) -> (r: bool)
    requires
        scene::all_wf(edges@),
    ensures
        r == scene::fits(edges@, extents),
{
    if extents.width == 0 || extents.height == 0 || edges.is_empty() {
        return true;
    }
    if edges.len() as u64 > 0x1_0000_0000 {
        return false;
    }
    let mut i: usize = 0;
    while i < edges.len()
        invariant
            i <= edges.len(),
            0 < edges.len(),
            0 < extents.width,
            0 < extents.height,
            forall|k: int|
                0 <= k < i ==> fixed::in_i32(#[trigger] edges[k].yl as int / 256 - extents.y0),
        decreases edges.len() - i,
    {
        if !is_i32(pixel_of(edges[i].yl) as i64 - extents.y0 as i64) {
            assert(!fixed::in_i32(edges@[i as int].yl as int / 256 - extents.y0));
            return false;
        }
        i = i + 1;
    }
    let order: Vec<u32> = drawing_order(edges, extents.y0, extents.height);
    let mut row: u32 = 0;
    while row < extents.height
        invariant
            row <= extents.height,
            scene::all_wf(edges@),
            0 < edges.len() <= 0x1_0000_0000,
            0 < extents.width,
            0 < extents.height,
            drawing::ordered(edges@, extents.y0 as int, order@),
            forall|k: int|
                0 <= k < edges.len() && scene::start_row(edges[k], extents.y0 as int)
                    < extents.height ==> #[trigger] order@.contains(k as u32),
            forall|k: int| 0 <= k < row ==> #[trigger] scene::row_fits(edges@, extents, k),
        decreases extents.height - row,
    {
        if !row_fits(edges, &order, extents, row) {
            return false;
        }
        row = row + 1;
    }
    true
}

} // verus!
