//! Drawing order, and sums over the edges drawn so far.
//!
//! Edges are drawn row by row. A row's edges are listed by index in drawing
//! order: by their first row, then in the order of the path.
use crate::edge::Edge;
use crate::fixed;
use crate::scene;
use crate::scene::Extents;
use crate::sum;
use vstd::prelude::*;

verus! {

/// `list` holds indices of edges, each at most once, in drawing order.
pub open spec fn ordered(edges: Seq<Edge>, y0: int, list: Seq<u32>) -> bool {
    &&& forall|k: int| 0 <= k < list.len() ==> #[trigger] list[k] < edges.len()
    &&& forall|a: int, b: int|
        0 <= a < b < list.len() ==> #[trigger] list[a] != #[trigger] list[b] && scene::drawn_by(
            edges,
            y0,
            list[a] as int,
            list[b] as int,
        )
}

/// `list` holds exactly the edges whose first row is `row`, in drawing order.
pub open spec fn is_bucket(edges: Seq<Edge>, y0: int, row: int, list: Seq<u32>) -> bool {
    &&& ordered(edges, y0, list)
    &&& forall|i: int|
        0 <= i < edges.len() ==> (#[trigger] list.contains(i as u32) <==> scene::start_row(
            edges[i],
            y0,
        ) == row)
}

/// `list` holds exactly the edges that meet the row at `top`, in drawing
/// order.
pub open spec fn is_active(edges: Seq<Edge>, y0: int, top: int, list: Seq<u32>) -> bool {
    &&& ordered(edges, y0, list)
    &&& forall|i: int|
        0 <= i < edges.len() ==> (#[trigger] list.contains(i as u32) <==> edges[i].meets(top))
}

/// `list` holds the active edges of the row above `row`, in drawing order.
pub open spec fn is_active_before(edges: Seq<Edge>, ext: Extents, row: int, list: Seq<u32>) -> bool {
    &&& ordered(edges, ext.y0 as int, list)
    &&& forall|i: int|
        0 <= i < edges.len() ==> (#[trigger] list.contains(i as u32) <==> edges[i].meets(
            ext.row_top(row - 1),
        ) && scene::start_row(edges[i], ext.y0 as int) < row)
}

/// Sum of `f` over the edges in `list`.
pub open spec fn drawn(n: int, list: Seq<u32>, f: spec_fn(int) -> int) -> int {
    sum::sum(
        n,
        |i: int|
            if list.contains(i as u32) {
                f(i)
            } else {
                0
            },
    )
}

/// Drawing no edge adds nothing.
pub proof fn lemma_drawn_nothing(n: int, f: spec_fn(int) -> int)
    ensures
        drawn(n, Seq::empty(), f) == 0,
{
    let list = Seq::<u32>::empty();
    sum::lemma_sum_zero(
        n,
        |i: int|
            if list.contains(i as u32) {
                f(i)
            } else {
                0
            },
    );
}

/// Drawing one more edge adds its term.
pub proof fn lemma_drawn_step(n: int, list: Seq<u32>, j: int, f: spec_fn(int) -> int)
    requires
        0 <= j < list.len(),
        0 <= n <= 0x1_0000_0000,
        list[j] < n,
        forall|a: int| 0 <= a < j ==> #[trigger] list[a] != list[j],
    ensures
        drawn(n, list.take(j + 1), f) == drawn(n, list.take(j), f) + f(list[j] as int),
{
    let before = list.take(j);
    let after = list.take(j + 1);
    let g0 = |i: int|
        if before.contains(i as u32) {
            f(i)
        } else {
            0
        };
    let g1 = |i: int|
        if after.contains(i as u32) {
            f(i)
        } else {
            0
        };
    let x = list[j] as int;
    assert(after[j] == list[j]);
    assert(after.contains(list[j]));
    assert forall|i: int| 0 <= i < n && i != x implies #[trigger] g1(i) == g0(i) by {
        lemma_take_contains(list, j, i as u32);
    }
    lemma_take_contains(list, j, list[j]);
    assert(!before.contains(list[j])) by {
        if before.contains(list[j]) {
            let a = choose|a: int| 0 <= a < before.len() && before[a] == list[j];
            assert(list[a] == list[j]);
        }
    }
    sum::lemma_sum_point(n, g1, g0, x);
}

/// Membership in a prefix that is longer by one.
pub proof fn lemma_take_contains(list: Seq<u32>, j: int, v: u32)
    requires
        0 <= j < list.len(),
    ensures
        list.take(j + 1).contains(v) <==> list.take(j).contains(v) || list[j] == v,
{
    let before = list.take(j);
    let after = list.take(j + 1);
    if before.contains(v) {
        let a = choose|a: int| 0 <= a < before.len() && before[a] == v;
        assert(after[a] == v);
    }
    if list[j] == v {
        assert(after[j] == v);
    }
    if after.contains(v) {
        let a = choose|a: int| 0 <= a < after.len() && after[a] == v;
        if a < j {
            assert(before[a] == v);
        }
    }
}

/// The edges drawn once position `j` of an ordered list is reached are those
/// that come no later in drawing order, but for edges without a term.
pub proof fn lemma_drawn_partial(
    edges: Seq<Edge>,
    y0: int,
    list: Seq<u32>,
    j: int,
    f: spec_fn(int) -> int,
)
    requires
        edges.len() <= 0x1_0000_0000,
        ordered(edges, y0, list),
        0 <= j < list.len(),
        forall|i: int|
            0 <= i < edges.len() && scene::drawn_by(edges, y0, i, list[j] as int)
                && !list.contains(i as u32) ==> #[trigger] f(i) == 0,
    ensures
        drawn(edges.len() as int, list.take(j + 1), f) == sum::sum(
            edges.len() as int,
            |i: int|
                if scene::drawn_by(edges, y0, i, list[j] as int) {
                    f(i)
                } else {
                    0
                },
        ),
{
    let n = edges.len() as int;
    let after = list.take(j + 1);
    let g = |i: int|
        if after.contains(i as u32) {
            f(i)
        } else {
            0
        };
    let h = |i: int|
        if scene::drawn_by(edges, y0, i, list[j] as int) {
            f(i)
        } else {
            0
        };
    assert forall|i: int| 0 <= i < n implies #[trigger] g(i) == h(i) by {
        if after.contains(i as u32) {
            let a = choose|a: int| 0 <= a < after.len() && after[a] == i as u32;
            assert(list[a] == i as u32);
            if a < j {
                assert(list[a] != list[j]);
            }
        } else if list.contains(i as u32) {
            let a = choose|a: int| 0 <= a < list.len() && list[a] == i as u32;
            if a <= j {
                assert(after[a] == i as u32);
            }
            assert(list[j] != list[a]);
        } else {
            assert(scene::drawn_by(edges, y0, i, list[j] as int) ==> f(i) == 0);
        }
    }
    sum::lemma_sum_eq(n, g, h);
}

/// Drawing a list that misses only edges without a term draws all edges.
pub proof fn lemma_drawn_all(n: int, list: Seq<u32>, f: spec_fn(int) -> int)
    requires
        forall|i: int| 0 <= i < n && !list.contains(i as u32) ==> #[trigger] f(i) == 0,
    ensures
        drawn(n, list, f) == sum::sum(n, f),
{
    let g = |i: int|
        if list.contains(i as u32) {
            f(i)
        } else {
            0
        };
    assert forall|i: int| 0 <= i < n implies #[trigger] g(i) == f(i) by {}
    sum::lemma_sum_eq(n, g, f);
}

/// The area terms of a cell.
pub open spec fn area_terms(edges: Seq<Edge>, top: int, col: int) -> spec_fn(int) -> int {
    |i: int| edges[i].area(top, col)
}

/// The cover terms of an output column.
pub open spec fn cover_terms(edges: Seq<Edge>, x0: int, top: int, c: int) -> spec_fn(int) -> int {
    |i: int| scene::edge_column_cover(edges[i], x0, top, c)
}

/// An edge that has started by row `row` ends below the row's top exactly if
/// it meets the row.
pub proof fn lemma_alive(e: Edge, ext: Extents, row: int)
    requires
        e.wf(),
        0 <= row,
        scene::start_row(e, ext.y0 as int) <= row,
    ensures
        e.meets(ext.row_top(row)) <==> e.yh > fixed::clamp(
            ext.row_top(row),
            i32::MIN as int,
            i32::MAX as int,
        ),
        e.meets(ext.row_top(row)) ==> fixed::in_i32(ext.row_top(row)),
{
}

/// Appending a row's bucket to edges that start above the row.
pub proof fn lemma_append_bucket(
    edges: Seq<Edge>,
    y0: int,
    row: int,
    before: Seq<u32>,
    bucket: Seq<u32>,
    list: Seq<u32>,
)
    requires
        edges.len() <= 0x1_0000_0000,
        ordered(edges, y0, before),
        forall|k: int|
            0 <= k < before.len() ==> scene::start_row(edges[#[trigger] before[k] as int], y0)
                < row,
        is_bucket(edges, y0, row, bucket),
        list =~= before + bucket,
    ensures
        ordered(edges, y0, list),
        forall|k: int|
            0 <= k < list.len() ==> scene::start_row(edges[#[trigger] list[k] as int], y0) <= row,
        forall|v: u32| #[trigger]
            list.contains(v) <==> before.contains(v) || bucket.contains(v),
{
    let n = before.len() as int;
    assert forall|k: int| 0 <= k < bucket.len() implies #[trigger] bucket[k] < edges.len()
        && scene::start_row(edges[bucket[k] as int], y0) == row by {
        assert(bucket.contains((bucket[k] as int) as u32));
    }
    assert forall|k: int| 0 <= k < list.len() implies #[trigger] list[k] < edges.len()
        && scene::start_row(edges[list[k] as int], y0) <= row by {
        if k < n {
            assert(list[k] == before[k]);
        } else {
            assert(list[k] == bucket[k - n]);
        }
    }
    assert forall|a: int, b: int| 0 <= a < b < list.len() implies #[trigger] list[a]
        != #[trigger] list[b] && scene::drawn_by(edges, y0, list[a] as int, list[b] as int) by {
        if b < n {
            assert(list[a] == before[a] && list[b] == before[b]);
        } else if a < n {
            assert(list[a] == before[a] && list[b] == bucket[b - n]);
        } else {
            assert(list[a] == bucket[a - n] && list[b] == bucket[b - n]);
        }
    }
    assert forall|v: u32| #[trigger] list.contains(v) <==> before.contains(v) || bucket.contains(
        v,
    ) by {
        if list.contains(v) {
            let k = choose|k: int| 0 <= k < list.len() && list[k] == v;
            if k < n {
                assert(before[k] == v);
            } else {
                assert(bucket[k - n] == v);
            }
        }
        if before.contains(v) {
            let k = choose|k: int| 0 <= k < before.len() && before[k] == v;
            assert(list[k] == v);
        }
        if bucket.contains(v) {
            let k = choose|k: int| 0 <= k < bucket.len() && bucket[k] == v;
            assert(list[n + k] == v);
        }
    }
}

/// Appending a row's bucket to the active edges of the row above makes a list
/// that holds every edge that meets the row.
pub proof fn lemma_row_starts(
    edges: Seq<Edge>,
    ext: Extents,
    row: int,
    before: Seq<u32>,
    bucket: Seq<u32>,
    list: Seq<u32>,
)
    requires
        0 <= row,
        edges.len() <= 0x1_0000_0000,
        scene::all_wf(edges),
        is_active_before(edges, ext, row, before),
        is_bucket(edges, ext.y0 as int, row, bucket),
        list =~= before + bucket,
    ensures
        ordered(edges, ext.y0 as int, list),
        forall|k: int|
            0 <= k < list.len() ==> scene::start_row(
                edges[#[trigger] list[k] as int],
                ext.y0 as int,
            ) <= row,
        forall|i: int|
            0 <= i < edges.len() && edges[i].meets(ext.row_top(row)) ==> #[trigger] list.contains(
                i as u32,
            ),
{
    let y0 = ext.y0 as int;
    assert forall|k: int| 0 <= k < before.len() implies scene::start_row(
        edges[#[trigger] before[k] as int],
        y0,
    ) < row by {
        assert(before.contains((before[k] as int) as u32));
    }
    lemma_append_bucket(edges, y0, row, before, bucket, list);
    assert forall|i: int|
        0 <= i < edges.len() && edges[i].meets(ext.row_top(row)) implies #[trigger] list.contains(
        i as u32,
    ) by {
        assert(edges[i].wf());
        assert(scene::start_row(edges[i], y0) <= row);
        assert(bucket.contains(i as u32) || before.contains(i as u32));
    }
}

/// The edges active in a row are those carried over to the row below.
pub proof fn lemma_row_ends(edges: Seq<Edge>, ext: Extents, row: int, list: Seq<u32>)
    requires
        0 <= row,
        is_active(edges, ext.y0 as int, ext.row_top(row), list),
    ensures
        is_active_before(edges, ext, row + 1, list),
{
}

/// Among the edges of an ordered list, those drawn no later than edge `i` are
/// the first few. Returns how many they are.
pub proof fn lemma_prefix(edges: Seq<Edge>, y0: int, list: Seq<u32>, len: int, i: int) -> (m: int)
    requires
        ordered(edges, y0, list),
        0 <= len <= list.len(),
        0 <= i < edges.len(),
    ensures
        0 <= m <= len,
        forall|k: int| 0 <= k < m ==> scene::drawn_by(edges, y0, #[trigger] list[k] as int, i),
        forall|k: int| m <= k < len ==> !scene::drawn_by(edges, y0, #[trigger] list[k] as int, i),
    decreases len,
{
    if len == 0 {
        0
    } else if scene::drawn_by(edges, y0, list[len - 1] as int, i) {
        assert forall|k: int| 0 <= k < len implies scene::drawn_by(
            edges,
            y0,
            #[trigger] list[k] as int,
            i,
        ) by {
            if k < len - 1 {
                assert(list[k] != list[len - 1]);
            }
        }
        len
    } else {
        lemma_prefix(edges, y0, list, len - 1, i)
    }
}

/// The edges drawn no later than edge `i` are the first `m` of an ordered
/// list, but for edges without a term.
pub proof fn lemma_drawn_prefix(
    edges: Seq<Edge>,
    y0: int,
    list: Seq<u32>,
    i: int,
    m: int,
    f: spec_fn(int) -> int,
)
    requires
        edges.len() <= 0x1_0000_0000,
        0 <= m <= list.len(),
        forall|k: int| 0 <= k < m ==> scene::drawn_by(edges, y0, #[trigger] list[k] as int, i),
        forall|k: int|
            m <= k < list.len() ==> !scene::drawn_by(edges, y0, #[trigger] list[k] as int, i),
        forall|k: int| 0 <= k < edges.len() && !list.contains(k as u32) ==> #[trigger] f(k) == 0,
    ensures
        drawn(edges.len() as int, list.take(m), f) == sum::sum(
            edges.len() as int,
            |k: int|
                if scene::drawn_by(edges, y0, k, i) {
                    f(k)
                } else {
                    0
                },
        ),
{
    let n = edges.len() as int;
    let first = list.take(m);
    let g = |k: int|
        if first.contains(k as u32) {
            f(k)
        } else {
            0
        };
    let h = |k: int|
        if scene::drawn_by(edges, y0, k, i) {
            f(k)
        } else {
            0
        };
    assert forall|k: int| 0 <= k < n implies #[trigger] g(k) == h(k) by {
        if first.contains(k as u32) {
            let a = choose|a: int| 0 <= a < first.len() && first[a] == k as u32;
            assert(list[a] == k as u32);
        } else if list.contains(k as u32) {
            let a = choose|a: int| 0 <= a < list.len() && list[a] == k as u32;
            if a < m {
                assert(first[a] == k as u32);
            }
            assert(!scene::drawn_by(edges, y0, list[a] as int, i));
        } else {
            assert(f(k) == 0);
        }
    }
    sum::lemma_sum_eq(n, g, h);
}

/// The accumulators hold the edges in `list`.
pub open spec fn holds(
    edges: Seq<Edge>,
    x0: int,
    top: int,
    list: Seq<u32>,
    area: Seq<i32>,
    cover: Seq<i32>,
) -> bool {
    &&& area.len() == cover.len()
    &&& forall|c: int|
        0 <= c < area.len() ==> #[trigger] area[c] == drawn(
            edges.len() as int,
            list,
            area_terms(edges, top, x0 + c),
        )
    &&& forall|c: int|
        0 <= c < area.len() ==> #[trigger] cover[c] == drawn(
            edges.len() as int,
            list,
            cover_terms(edges, x0, top, c),
        )
}

/// Fresh accumulators hold no edges.
pub proof fn lemma_holds_nothing(edges: Seq<Edge>, x0: int, top: int, area: Seq<i32>, cover: Seq<i32>)
    requires
        area.len() == cover.len(),
        forall|c: int| 0 <= c < area.len() ==> #[trigger] area[c] == 0,
        forall|c: int| 0 <= c < area.len() ==> #[trigger] cover[c] == 0,
    ensures
        holds(edges, x0, top, Seq::empty(), area, cover),
{
    assert forall|f: spec_fn(int) -> int| #[trigger]
        drawn(edges.len() as int, Seq::empty(), f) == 0 by {
        lemma_drawn_nothing(edges.len() as int, f);
    }
}

/// The accumulators after one more edge.
pub proof fn lemma_holds_step(
    edges: Seq<Edge>,
    x0: int,
    top: int,
    list: Seq<u32>,
    j: int,
    area1: Seq<i32>,
    cover1: Seq<i32>,
    area2: Seq<i32>,
    cover2: Seq<i32>,
)
    requires
        edges.len() <= 0x1_0000_0000,
        0 <= j < list.len(),
        list[j] < edges.len(),
        forall|a: int| 0 <= a < j ==> #[trigger] list[a] != list[j],
        holds(edges, x0, top, list.take(j), area1, cover1),
        area2.len() == area1.len(),
        cover2.len() == cover1.len(),
        forall|c: int|
            0 <= c < area1.len() ==> #[trigger] area2[c] == area1[c] + edges[list[j] as int].area(
                top,
                x0 + c,
            ),
        forall|c: int|
            0 <= c < area1.len() ==> #[trigger] cover2[c] == cover1[c] + scene::edge_column_cover(
                edges[list[j] as int],
                x0,
                top,
                c,
            ),
    ensures
        holds(edges, x0, top, list.take(j + 1), area2, cover2),
{
    let n = edges.len() as int;
    assert forall|c: int| 0 <= c < area2.len() implies #[trigger] area2[c] == drawn(
        n,
        list.take(j + 1),
        area_terms(edges, top, x0 + c),
    ) by {
        let f = area_terms(edges, top, x0 + c);
        lemma_drawn_step(n, list, j, f);
        assert(area1[c] == drawn(n, list.take(j), f));
    }
    assert forall|c: int| 0 <= c < area2.len() implies #[trigger] cover2[c] == drawn(
        n,
        list.take(j + 1),
        cover_terms(edges, x0, top, c),
    ) by {
        let f = cover_terms(edges, x0, top, c);
        lemma_drawn_step(n, list, j, f);
        assert(cover1[c] == drawn(n, list.take(j), f));
    }
}

/// The area after the edge at position `j` of the drawing order.
pub proof fn lemma_area_at(
    edges: Seq<Edge>,
    ext: Extents,
    row: int,
    list: Seq<u32>,
    j: int,
    c: int,
)
    requires
        edges.len() <= 0x1_0000_0000,
        ordered(edges, ext.y0 as int, list),
        forall|i: int|
            0 <= i < edges.len() && edges[i].meets(ext.row_top(row)) ==> #[trigger] list.contains(
                i as u32,
            ),
        0 <= j < list.len(),
    ensures
        drawn(
            edges.len() as int,
            list.take(j),
            area_terms(edges, ext.row_top(row), ext.x0 + c),
        ) + edges[list[j] as int].area(ext.row_top(row), ext.x0 + c) == scene::partial_area(
            edges,
            ext.y0 as int,
            ext.row_top(row),
            ext.x0 + c,
            list[j] as int,
        ),
{
    let f = area_terms(edges, ext.row_top(row), ext.x0 + c);
    lemma_drawn_step(edges.len() as int, list, j, f);
    lemma_drawn_partial(edges, ext.y0 as int, list, j, f);
    sum::lemma_sum_eq(
        edges.len() as int,
        |k: int|
            if scene::drawn_by(edges, ext.y0 as int, k, list[j] as int) {
                f(k)
            } else {
                0
            },
        |k: int|
            if scene::drawn_by(edges, ext.y0 as int, k, list[j] as int) {
                edges[k].area(ext.row_top(row), ext.x0 + c)
            } else {
                0
            },
    );
}

/// The cover after the edge at position `j` of the drawing order.
pub proof fn lemma_cover_at(
    edges: Seq<Edge>,
    ext: Extents,
    row: int,
    list: Seq<u32>,
    j: int,
    c: int,
)
    requires
        edges.len() <= 0x1_0000_0000,
        ordered(edges, ext.y0 as int, list),
        forall|i: int|
            0 <= i < edges.len() && edges[i].meets(ext.row_top(row)) ==> #[trigger] list.contains(
                i as u32,
            ),
        0 <= j < list.len(),
    ensures
        drawn(
            edges.len() as int,
            list.take(j),
            cover_terms(edges, ext.x0 as int, ext.row_top(row), c),
        ) + scene::edge_column_cover(
            edges[list[j] as int],
            ext.x0 as int,
            ext.row_top(row),
            c,
        ) == scene::partial_cover(
            edges,
            ext.x0 as int,
            ext.y0 as int,
            ext.row_top(row),
            c,
            list[j] as int,
        ),
{
    let f = cover_terms(edges, ext.x0 as int, ext.row_top(row), c);
    lemma_drawn_step(edges.len() as int, list, j, f);
    lemma_drawn_partial(edges, ext.y0 as int, list, j, f);
    sum::lemma_sum_eq(
        edges.len() as int,
        |k: int|
            if scene::drawn_by(edges, ext.y0 as int, k, list[j] as int) {
                f(k)
            } else {
                0
            },
        |k: int|
            if scene::drawn_by(edges, ext.y0 as int, k, list[j] as int) {
                scene::edge_column_cover(edges[k], ext.x0 as int, ext.row_top(row), c)
            } else {
                0
            },
    );
}

/// Accumulators that hold every edge that meets the row hold the sums over all
/// edges.
pub proof fn lemma_holds_all(
    edges: Seq<Edge>,
    x0: int,
    top: int,
    list: Seq<u32>,
    area: Seq<i32>,
    cover: Seq<i32>,
)
    requires
        holds(edges, x0, top, list, area, cover),
        forall|i: int|
            0 <= i < edges.len() && edges[i].meets(top) ==> #[trigger] list.contains(i as u32),
    ensures
        forall|c: int|
            0 <= c < area.len() ==> #[trigger] area[c] == scene::total_area(edges, top, x0 + c),
        forall|c: int|
            0 <= c < area.len() ==> #[trigger] cover[c] == scene::total_cover(edges, x0, top, c),
{
    let n = edges.len() as int;
    assert forall|c: int| 0 <= c < area.len() implies #[trigger] area[c] == scene::total_area(
        edges,
        top,
        x0 + c,
    ) by {
        lemma_drawn_all(n, list, area_terms(edges, top, x0 + c));
        sum::lemma_sum_eq(
            n,
            area_terms(edges, top, x0 + c),
            |i: int| edges[i].area(top, x0 + c),
        );
    }
    assert forall|c: int| 0 <= c < area.len() implies #[trigger] cover[c] == scene::total_cover(
        edges,
        x0,
        top,
        c,
    ) by {
        lemma_drawn_all(n, list, cover_terms(edges, x0, top, c));
        sum::lemma_sum_eq(
            n,
            cover_terms(edges, x0, top, c),
            |i: int| scene::edge_column_cover(edges[i], x0, top, c),
        );
    }
}

} // verus!
