//! Winding balance of closed paths.
//!
//! Every contour returns to its start, so what its edges climb in a pixel row
//! they also descend. Nothing carries past the geometry of a closed path.
use crate::curve;
use crate::curve::{Chord, Cubic, CubicOps, Quad, QuadOps};
use crate::edge;
use crate::edge::Edge;
use crate::fixed;
use crate::laws;
use crate::outline;
use crate::outline::Outline;
use crate::scene;
use crate::scene::Extents;
use crate::sum;
use vstd::prelude::*;

verus! {

/// The height `y`, moved into the pixel row at `top`.
pub open spec fn height_in_row(y: int, top: int) -> int {
    fixed::clamp(y, top, top + 256)
}

/// Signed height of an edge within the row at `top`.
pub open spec fn climb(e: Edge, top: int) -> int {
    (height_in_row(e.yh as int, top) - height_in_row(e.yl as int, top)) * e.wind
}

/// Signed height of all edges within the row at `top`.
pub open spec fn total_climb(edges: Seq<Edge>, top: int) -> int {
    sum::sum(edges.len() as int, |i: int| climb(edges[i], top))
}

/// In every row the edges climb from the start of the current contour to the
/// current point, and no further.
pub open spec fn balanced(o: Outline) -> bool {
    forall|top: int|
        #![trigger total_climb(o.edges, top)]
        total_climb(o.edges, top) == height_in_row(o.current.1 as int, top) - height_in_row(
            o.start.1 as int,
            top,
        )
}

/// The climb of two groups of edges.
proof fn lemma_climb_add(a: Seq<Edge>, b: Seq<Edge>, top: int)
    ensures
        total_climb(a + b, top) == total_climb(a, top) + total_climb(b, top),
{
    sum::lemma_sum_concat(
        a.len() as int,
        b.len() as int,
        |i: int| climb(a[i], top),
        |i: int| climb(b[i], top),
        |i: int| climb((a + b)[i], top),
    );
}

/// A segment climbs from its first to its second point.
proof fn lemma_segment_climb(from: (i32, i32), to: (i32, i32), top: int)
    ensures
        total_climb(outline::segment(from, to), top) == height_in_row(to.1 as int, top)
            - height_in_row(from.1 as int, top),
{
    let s = outline::segment(from, to);
    let f = |i: int| climb(s[i], top);
    if from.1 != to.1 {
        assert(sum::sum(1, f) == sum::sum(0, f) + f(0));
        let e = Edge::spec_between(from.0, from.1, to.0, to.1);
        assert(s[0] == e);
        let d = height_in_row(e.yh as int, top) - height_in_row(e.yl as int, top);
        assert(d * -1 == -d) by (nonlinear_arith);
        assert(d * 1 == d) by (nonlinear_arith);
    }
}

/// A fresh path is balanced.
pub proof fn law_balance_of_empty()
    ensures
        balanced(Outline::empty()),
{
    let o = Outline::empty();
    assert forall|top: int| #[trigger] total_climb(o.edges, top) == 0 by {}
}

/// Drawing a line keeps a path balanced.
pub proof fn law_line_keeps_balance(o: Outline, to: (i32, i32))
    requires
        balanced(o),
    ensures
        balanced(o.line_to(to)),
{
    let p = o.line_to(to);
    assert forall|top: int|
        #![trigger total_climb(p.edges, top)]
        total_climb(p.edges, top) == height_in_row(p.current.1 as int, top) - height_in_row(
            p.start.1 as int,
            top,
        ) by {
        lemma_climb_add(o.edges, outline::segment(o.current, to), top);
        lemma_segment_climb(o.current, to, top);
        assert(total_climb(o.edges, top) == height_in_row(o.current.1 as int, top)
            - height_in_row(o.start.1 as int, top));
    }
}

/// A closed path climbs nothing in any row.
pub proof fn law_closed_path_cancels(o: Outline, top: int)
    requires
        balanced(o),
    ensures
        balanced(o.closed()),
        total_climb(o.closed().edges, top) == 0,
{
    law_line_keeps_balance(o, o.start);
    assert(total_climb(o.closed().edges, top) == 0);
}

/// Beginning a new contour keeps a path balanced.
pub proof fn law_move_keeps_balance(o: Outline, to: (i32, i32))
    requires
        balanced(o),
    ensures
        balanced(o.move_to(to)),
{
    let p = o.move_to(to);
    assert forall|top: int|
        #![trigger total_climb(p.edges, top)]
        total_climb(p.edges, top) == height_in_row(p.current.1 as int, top) - height_in_row(
            p.start.1 as int,
            top,
        ) by {
        law_closed_path_cancels(o, top);
    }
}

/// The chords lead from `from` to `to` without a gap.
pub open spec fn connected(chords: Seq<Chord>, from: (i32, i32), to: (i32, i32)) -> bool {
    &&& chords.len() > 0
    &&& chords[0].0 == from
    &&& chords.last().1 == to
    &&& forall|i: int, j: int|
        0 <= i && j == i + 1 && j < chords.len() ==> (#[trigger] chords[i]).1 == (
        #[trigger] chords[j]).0
}

/// Two connected runs of chords that meet.
proof fn lemma_connected_add(
    a: Seq<Chord>,
    b: Seq<Chord>,
    from: (i32, i32),
    via: (i32, i32),
    to: (i32, i32),
)
    requires
        connected(a, from, via),
        connected(b, via, to),
    ensures
        connected(a + b, from, to),
{
    let ab = a + b;
    assert(ab.last() == b.last());
    assert forall|i: int, j: int| 0 <= i && j == i + 1 && j < ab.len() implies (
    #[trigger] ab[i]).1 == (#[trigger] ab[j]).0 by {
        let n = a.len() as int;
        if j < n {
            assert(a[i].1 == a[j].0);
        } else if i < n {
            assert(ab[i] == a.last() && ab[j] == b[0]);
        } else {
            assert(b[i - n].1 == b[j - n].0);
        }
    }
}

/// The chords of a quadratic curve lead from its first to its last point
/// without a gap, and there are at most `2^MAX_DEPTH` of them.
pub proof fn law_quad_chords_connect<T>(ops: QuadOps<T>, q: Quad<T>)
    ensures
        connected(ops.chords(q, 0), ops.chord(q).0, ops.chord(q).1),
        ops.chords(q, 0).len() <= 65536,
{
    lemma_quad_chords(ops, q, 0);
    lemma_pieces();
}

/// The chords of a cubic curve lead from its first to its last point without
/// a gap, and there are at most `2^MAX_DEPTH` of them.
pub proof fn law_cubic_chords_connect<T>(ops: CubicOps<T>, c: Cubic<T>)
    ensures
        connected(ops.chords(c, 0), ops.chord(c).0, ops.chord(c).1),
        ops.chords(c, 0).len() <= 65536,
{
    lemma_cubic_chords(ops, c, 0);
    lemma_pieces();
}

/// A quadratic curve that is flat draws as the line to its last point.
pub proof fn law_flat_quad_is_line<T>(o: Outline, ops: QuadOps<T>, q: Quad<T>)
    requires
        ops.is_flat(q),
        o.current == ops.chord(q).0,
    ensures
        o.chords_to(ops.chords(q, 0), ops.chord(q).1) == o.line_to(ops.chord(q).1),
{
    curve::lemma_chord_edges_one(ops.chord(q));
}

/// A cubic curve that is flat draws as the line to its last point.
pub proof fn law_flat_cubic_is_line<T>(o: Outline, ops: CubicOps<T>, c: Cubic<T>)
    requires
        ops.is_flat(c),
        o.current == ops.chord(c).0,
    ensures
        o.chords_to(ops.chords(c, 0), ops.chord(c).1) == o.line_to(ops.chord(c).1),
{
    curve::lemma_chord_edges_one(ops.chord(c));
}

/// The chords from their other end.
pub open spec fn reversed_chords(chords: Seq<Chord>) -> Seq<Chord> {
    chords.reverse().map_values(|c: Chord| (c.1, c.0))
}

/// The edges from their other end.
pub open spec fn reversed_edges(edges: Seq<Edge>) -> Seq<Edge> {
    edges.reverse().map_values(|e: Edge| laws::reversed(e))
}

/// Two groups of edges from their other end.
proof fn lemma_reversed_add(a: Seq<Edge>, b: Seq<Edge>)
    ensures
        reversed_edges(a + b) == reversed_edges(b) + reversed_edges(a),
{
    assert(reversed_edges(a + b) =~= reversed_edges(b) + reversed_edges(a));
}

/// Two runs of chords from their other end.
proof fn lemma_reversed_chords_add(a: Seq<Chord>, b: Seq<Chord>)
    ensures
        reversed_chords(a + b) == reversed_chords(b) + reversed_chords(a),
{
    assert(reversed_chords(a + b) =~= reversed_chords(b) + reversed_chords(a));
}

/// A segment drawn from its other end.
proof fn lemma_segment_reversed(from: (i32, i32), to: (i32, i32))
    ensures
        outline::segment(to, from) == reversed_edges(outline::segment(from, to)),
{
    if from.1 != to.1 {
        laws::law_segment_reversed(from.0, from.1, to.0, to.1);
    }
    assert(outline::segment(to, from) =~= reversed_edges(outline::segment(from, to)));
}

/// Chords drawn from their other end.
proof fn lemma_chords_reversed(chords: Seq<Chord>)
    ensures
        curve::chord_edges(reversed_chords(chords)) == reversed_edges(curve::chord_edges(chords)),
    decreases chords.len(),
{
    if chords.len() == 0 {
        assert(reversed_chords(chords) =~= Seq::<Chord>::empty());
        assert(reversed_edges(curve::chord_edges(chords)) =~= Seq::<Edge>::empty());
    } else {
        let rest = chords.drop_last();
        let last = chords.last();
        lemma_chords_reversed(rest);
        assert(reversed_chords(chords) =~= seq![(last.1, last.0)] + reversed_chords(rest));
        curve::lemma_chord_edges_add(seq![(last.1, last.0)], reversed_chords(rest));
        curve::lemma_chord_edges_one((last.1, last.0));
        lemma_segment_reversed(last.0, last.1);
        lemma_reversed_add(curve::chord_edges(rest), outline::segment(last.0, last.1));
    }
}

proof fn lemma_quad_reversed<T>(ops: QuadOps<T>, q: Quad<T>, depth: int)
    requires
        ops.symmetric_on(q, depth),
    ensures
        ops.chords(q.reversed(), depth) == reversed_chords(ops.chords(q, depth)),
    decreases curve::MAX_DEPTH - depth,
{
    let r = q.reversed();
    assert(ops.is_flat(r) == ops.is_flat(q));
    if depth >= curve::MAX_DEPTH || ops.is_flat(q) {
        assert(ops.chords(r, depth) =~= reversed_chords(ops.chords(q, depth)));
    } else {
        assert(ops.left(r) == ops.right(q).reversed());
        assert(ops.right(r) == ops.left(q).reversed());
        lemma_quad_reversed(ops, ops.left(q), depth + 1);
        lemma_quad_reversed(ops, ops.right(q), depth + 1);
        lemma_reversed_chords_add(
            ops.chords(ops.left(q), depth + 1),
            ops.chords(ops.right(q), depth + 1),
        );
    }
}

proof fn lemma_cubic_reversed<T>(ops: CubicOps<T>, c: Cubic<T>, depth: int)
    requires
        ops.symmetric_on(c, depth),
    ensures
        ops.chords(c.reversed(), depth) == reversed_chords(ops.chords(c, depth)),
    decreases curve::MAX_DEPTH - depth,
{
    let r = c.reversed();
    assert(ops.is_flat(r) == ops.is_flat(c));
    if depth >= curve::MAX_DEPTH || ops.is_flat(c) {
        assert(ops.chords(r, depth) =~= reversed_chords(ops.chords(c, depth)));
    } else {
        assert(ops.left(r) == ops.right(c).reversed());
        assert(ops.right(r) == ops.left(c).reversed());
        lemma_cubic_reversed(ops, ops.left(c), depth + 1);
        lemma_cubic_reversed(ops, ops.right(c), depth + 1);
        lemma_reversed_chords_add(
            ops.chords(ops.left(c), depth + 1),
            ops.chords(ops.right(c), depth + 1),
        );
    }
}

/// A quadratic curve drawn from its other end has the same edges, in the
/// opposite order and direction, if the operations treat both ends of the curve
/// and its pieces alike.
pub proof fn law_quad_reversed<T>(ops: QuadOps<T>, q: Quad<T>)
    requires
        ops.symmetric_on(q, 0),
    ensures
        curve::chord_edges(ops.chords(q.reversed(), 0)) == curve::chord_edges(
            ops.chords(q, 0),
        ).reverse().map_values(|e: Edge| laws::reversed(e)),
{
    lemma_quad_reversed(ops, q, 0);
    lemma_chords_reversed(ops.chords(q, 0));
}

/// A cubic curve drawn from its other end has the same edges, in the opposite
/// order and direction, if the operations treat both ends of the curve and its
/// pieces alike.
pub proof fn law_cubic_reversed<T>(ops: CubicOps<T>, c: Cubic<T>)
    requires
        ops.symmetric_on(c, 0),
    ensures
        curve::chord_edges(ops.chords(c.reversed(), 0)) == curve::chord_edges(
            ops.chords(c, 0),
        ).reverse().map_values(|e: Edge| laws::reversed(e)),
{
    lemma_cubic_reversed(ops, c, 0);
    lemma_chords_reversed(ops.chords(c, 0));
}

/// Operations that do not depend on the order of their arguments treat both
/// ends of every quadratic curve alike.
pub proof fn law_symmetric_quad<T>(ops: QuadOps<T>, q: Quad<T>, depth: int)
    requires
        ops.symmetric(),
    ensures
        ops.symmetric_on(q, depth),
    decreases curve::MAX_DEPTH - depth,
{
    assert(ops.alike(q.x0, q.x1, q.x2));
    assert(ops.alike(q.y0, q.y1, q.y2));
    if depth < curve::MAX_DEPTH && !ops.is_flat(q) {
        law_symmetric_quad(ops, ops.left(q), depth + 1);
        law_symmetric_quad(ops, ops.right(q), depth + 1);
    }
}

/// Operations that do not depend on the order of their arguments treat both
/// ends of every cubic curve alike.
pub proof fn law_symmetric_cubic<T>(ops: CubicOps<T>, c: Cubic<T>, depth: int)
    requires
        ops.symmetric(),
    ensures
        ops.symmetric_on(c, depth),
    decreases curve::MAX_DEPTH - depth,
{
    assert(ops.alike(c.x0, c.x1, c.x2, c.x3));
    assert(ops.alike(c.y0, c.y1, c.y2, c.y3));
    if depth < curve::MAX_DEPTH && !ops.is_flat(c) {
        law_symmetric_cubic(ops, ops.left(c), depth + 1);
        law_symmetric_cubic(ops, ops.right(c), depth + 1);
    }
}

/// In exact arithmetic, any quadratic curve drawn from its other end has the
/// same edges, in the opposite order and direction.
pub proof fn law_exact_quad_reversed(pixel: int, fix: spec_fn(int) -> i32, q: Quad<int>)
    ensures
        curve::chord_edges(curve::exact_quad(pixel, fix).chords(q.reversed(), 0))
            == curve::chord_edges(
            curve::exact_quad(pixel, fix).chords(q, 0),
        ).reverse().map_values(|e: Edge| laws::reversed(e)),
{
    let ops = curve::exact_quad(pixel, fix);
    assert(ops.symmetric());
    law_symmetric_quad(ops, q, 0);
    law_quad_reversed(ops, q);
}

/// In exact arithmetic, any cubic curve drawn from its other end has the same
/// edges, in the opposite order and direction.
pub proof fn law_exact_cubic_reversed(pixel: int, fix: spec_fn(int) -> i32, c: Cubic<int>)
    ensures
        curve::chord_edges(curve::exact_cubic(pixel, fix).chords(c.reversed(), 0))
            == curve::chord_edges(
            curve::exact_cubic(pixel, fix).chords(c, 0),
        ).reverse().map_values(|e: Edge| laws::reversed(e)),
{
    let ops = curve::exact_cubic(pixel, fix);
    assert(ops.symmetric());
    law_symmetric_cubic(ops, c, 0);
    law_cubic_reversed(ops, c);
}

/// The size of a full subdivision.
proof fn lemma_pieces()
    ensures
        curve::pieces(0) == 131071,
{
    reveal_with_fuel(curve::pieces, 17);
}

proof fn lemma_quad_chords<T>(ops: QuadOps<T>, q: Quad<T>, depth: int)
    requires
        0 <= depth <= curve::MAX_DEPTH,
    ensures
        connected(ops.chords(q, depth), ops.chord(q).0, ops.chord(q).1),
        ops.chords(q, depth).len() * 2 <= curve::pieces(depth) + 1,
    decreases curve::MAX_DEPTH - depth,
{
    if depth >= curve::MAX_DEPTH || ops.is_flat(q) {
        assert(1 <= curve::pieces(depth));
    } else {
        let l = ops.left(q);
        let r = ops.right(q);
        lemma_quad_chords(ops, l, depth + 1);
        lemma_quad_chords(ops, r, depth + 1);
        lemma_connected_add(
            ops.chords(l, depth + 1),
            ops.chords(r, depth + 1),
            ops.chord(q).0,
            ops.chord(l).1,
            ops.chord(q).1,
        );
    }
}

proof fn lemma_cubic_chords<T>(ops: CubicOps<T>, c: Cubic<T>, depth: int)
    requires
        0 <= depth <= curve::MAX_DEPTH,
    ensures
        connected(ops.chords(c, depth), ops.chord(c).0, ops.chord(c).1),
        ops.chords(c, depth).len() * 2 <= curve::pieces(depth) + 1,
    decreases curve::MAX_DEPTH - depth,
{
    if depth >= curve::MAX_DEPTH || ops.is_flat(c) {
        assert(1 <= curve::pieces(depth));
    } else {
        let l = ops.left(c);
        let r = ops.right(c);
        lemma_cubic_chords(ops, l, depth + 1);
        lemma_cubic_chords(ops, r, depth + 1);
        lemma_connected_add(
            ops.chords(l, depth + 1),
            ops.chords(r, depth + 1),
            ops.chord(c).0,
            ops.chord(l).1,
            ops.chord(c).1,
        );
    }
}

/// The climb of connected chords.
proof fn lemma_chords_climb(chords: Seq<Chord>, from: (i32, i32), to: (i32, i32), top: int)
    requires
        connected(chords, from, to),
    ensures
        total_climb(curve::chord_edges(chords), top) == height_in_row(to.1 as int, top)
            - height_in_row(from.1 as int, top),
    decreases chords.len(),
{
    let last = chords.last();
    let rest = chords.drop_last();
    lemma_climb_add(curve::chord_edges(rest), outline::segment(last.0, last.1), top);
    lemma_segment_climb(last.0, last.1, top);
    if rest.len() == 0 {
        assert(curve::chord_edges(rest) =~= Seq::<Edge>::empty());
    } else {
        let n = chords.len() as int;
        assert(chords[n - 2].1 == chords[n - 1].0);
        assert(rest.last() == chords[n - 2]);
        assert forall|i: int, j: int| 0 <= i && j == i + 1 && j < rest.len() implies (
        #[trigger] rest[i]).1 == (#[trigger] rest[j]).0 by {
            assert(chords[i].1 == chords[j].0);
        }
        assert(connected(rest, from, last.0));
        lemma_chords_climb(rest, from, last.0, top);
    }
}

/// Drawing a curve from the current point keeps a path balanced.
pub proof fn law_curve_keeps_balance(o: Outline, chords: Seq<Chord>, to: (i32, i32))
    requires
        balanced(o),
        connected(chords, o.current, to),
    ensures
        balanced(o.chords_to(chords, to)),
{
    let p = o.chords_to(chords, to);
    assert forall|top: int|
        #![trigger total_climb(p.edges, top)]
        total_climb(p.edges, top) == height_in_row(p.current.1 as int, top) - height_in_row(
            p.start.1 as int,
            top,
        ) by {
        lemma_climb_add(o.edges, curve::chord_edges(chords), top);
        lemma_chords_climb(chords, o.current, to, top);
        assert(total_climb(o.edges, top) == height_in_row(o.current.1 as int, top)
            - height_in_row(o.start.1 as int, top));
    }
}

/// Right of an edge's geometry its whole climb has been carried over, and it
/// cuts off no area.
pub proof fn lemma_right_of_edge(e: Edge, top: int, col: int)
    requires
        e.wf(),
        scene::right_of(e) <= col,
    ensures
        e.cover_through(top, col) == climb(e, top),
        e.area(top, col) == 0,
{
    if e.meets(top) {
        let s = e.span(top);
        edge::lemma_x_at(e, fixed::max(e.yl as int, top));
        edge::lemma_x_at(e, fixed::min(e.yh as int, top + 256));
        assert(s.xa <= col * 256 && s.xb <= col * 256);
        if s.rightmost() == col {
            let k = s.step(col);
            assert(s.x_in(k) == 0 && s.x_out(k) == 0);
            assert(0 * s.cover(col) == 0) by (nonlinear_arith);
            assert(s.area(col) == 0);
        }
    } else {
        assert(height_in_row(e.yh as int, top) == height_in_row(e.yl as int, top));
    }
}

/// Left of an edge's geometry it has no effect.
pub proof fn lemma_left_of_edge(e: Edge, top: int, col: int)
    requires
        e.wf(),
        col < scene::left_of(e),
    ensures
        e.cover_through(top, col) == 0,
        e.area(top, col) == 0,
{
    if e.meets(top) {
        edge::lemma_x_at(e, fixed::max(e.yl as int, top));
        edge::lemma_x_at(e, fixed::min(e.yh as int, top + 256));
    }
}

/// A closed path leaves every pixel outside of its extents blank.
pub proof fn law_blank_outside_extents(
    o: Outline,
    bx: Extents,
    ext: Extents,
    row: int,
    c: int,
)
    requires
        balanced(o),
        scene::all_wf(o.closed().edges),
        0 <= row < ext.height,
        0 <= c < ext.width,
        scene::bounds(o.closed().edges, bx),
        !(bx.x0 <= ext.x0 + c < bx.x0 + bx.width) || !(bx.y0 <= ext.y0 + row < bx.y0 + bx.height),
    ensures
        scene::pixel(o.closed().edges, ext, row, c) == 0,
{
    let edges = o.closed().edges;
    let n = edges.len() as int;
    let top = (ext.y0 + row) * 256;
    let col = ext.x0 + c;
    laws::law_clipping(edges, ext, row, c);
    let area = |i: int| edges[i].area(top, col);
    let carried = |i: int| edges[i].cover_through(top, col);
    if bx.x0 <= col < bx.x0 + bx.width {
        assert forall|i: int| 0 <= i < n implies !(#[trigger] edges[i]).meets(top) by {
            assert(bx.y0 <= scene::top_of(edges[i]));
        }
        sum::lemma_sum_zero(n, area);
        sum::lemma_sum_zero(n, carried);
    } else if col < bx.x0 {
        assert forall|i: int| 0 <= i < n implies #[trigger] area(i) == 0 && carried(i) == 0 by {
            assert(bx.x0 <= scene::left_of(edges[i]));
            lemma_left_of_edge(edges[i], top, col);
        }
        sum::lemma_sum_zero(n, area);
        assert forall|i: int| 0 <= i < n implies #[trigger] carried(i) == 0 by {
            assert(area(i) == 0);
        }
        sum::lemma_sum_zero(n, carried);
    } else {
        let climbs = |i: int| climb(edges[i], top);
        assert forall|i: int| 0 <= i < n implies #[trigger] area(i) == 0 && carried(i) == climbs(
            i,
        ) by {
            assert(scene::right_of(edges[i]) <= bx.x0 + bx.width);
            lemma_right_of_edge(edges[i], top, col);
        }
        sum::lemma_sum_zero(n, area);
        assert forall|i: int| 0 <= i < n implies #[trigger] carried(i) == climbs(i) by {
            assert(area(i) == 0);
        }
        sum::lemma_sum_eq(n, carried, climbs);
        law_closed_path_cancels(o, top);
    }
}

} // verus!
