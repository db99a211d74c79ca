//! What a path looks like in terms of the points that it was drawn with.
use crate::curve;
use crate::curve::Chord;
use crate::edge::Edge;
use crate::outline;
use crate::outline::Outline;
use crate::scene;
use crate::scene::Extents;
use vstd::prelude::*;

verus! {

/// A side of a path: a straight line from its first to its second point.
pub type Side = ((i32, i32), (i32, i32));

/// The edge is the line between the two points of a side: it has each point as
/// the end with that point's y, and the direction in which the side was drawn.
pub open spec fn joins(e: Edge, s: Side) -> bool {
    if s.0.1 < s.1.1 {
        (e.xl, e.yl) == s.0 && (e.xh, e.yh) == s.1 && e.wind == 1
    } else {
        (e.xl, e.yl) == s.1 && (e.xh, e.yh) == s.0 && e.wind == -1
    }
}

/// The edges are exactly those of the sides, in the same order. Horizontal
/// sides have no edge.
pub open spec fn traces(edges: Seq<Edge>, sides: Seq<Side>) -> bool
    decreases sides.len(),
{
    if sides.len() == 0 {
        edges.len() == 0
    } else if sides.last().0.1 == sides.last().1.1 {
        traces(edges, sides.drop_last())
    } else {
        &&& edges.len() > 0
        &&& joins(edges.last(), sides.last())
        &&& traces(edges.drop_last(), sides.drop_last())
    }
}

/// The edge of a segment passes through both of its points, and is drawn from
/// the first to the second.
pub proof fn law_edge_joins_points(x0: i32, y0: i32, x1: i32, y1: i32)
    requires
        y0 != y1,
    ensures
        joins(Edge::spec_between(x0, y0, x1, y1), ((x0, y0), (x1, y1))),
{
}

/// One more side.
proof fn lemma_traces_segment(edges: Seq<Edge>, sides: Seq<Side>, s: Side)
    requires
        traces(edges, sides),
    ensures
        traces(edges + outline::segment(s.0, s.1), sides.push(s)),
{
    let after = edges + outline::segment(s.0, s.1);
    assert(sides.push(s).drop_last() =~= sides);
    if s.0.1 == s.1.1 {
        assert(after =~= edges);
    } else {
        assert(after.drop_last() =~= edges);
    }
}

/// A fresh path has no sides, and its pen is at the origin.
pub proof fn law_fresh_path_is_blank()
    ensures
        traces(Outline::empty().edges, Seq::empty()),
        Outline::empty().current == (0i32, 0i32),
        Outline::empty().start == (0i32, 0i32),
{
}

/// Drawing a line adds the side from the current point to the given one, and
/// moves the current point there. Nothing else changes.
pub proof fn law_line_adds_side(o: Outline, sides: Seq<Side>, to: (i32, i32))
    requires
        traces(o.edges, sides),
    ensures
        traces(o.line_to(to).edges, sides.push((o.current, to))),
        o.edges.is_prefix_of(o.line_to(to).edges),
        o.line_to(to).current == to,
        o.line_to(to).start == o.start,
{
    lemma_traces_segment(o.edges, sides, (o.current, to));
}

/// Closing a contour adds the side from the current point to the contour's
/// start: it draws what a line to the start draws.
pub proof fn law_close_adds_side(o: Outline, sides: Seq<Side>)
    requires
        traces(o.edges, sides),
    ensures
        traces(o.closed().edges, sides.push((o.current, o.start))),
        o.edges.is_prefix_of(o.closed().edges),
        o.closed() == o.line_to(o.start),
        o.closed().current == o.start,
        o.closed().start == o.start,
{
    lemma_traces_segment(o.edges, sides, (o.current, o.start));
}

/// Beginning a contour closes the one before, and puts the current point and
/// the contour's start at the given point.
pub proof fn law_move_adds_closing_side(o: Outline, sides: Seq<Side>, to: (i32, i32))
    requires
        traces(o.edges, sides),
    ensures
        traces(o.move_to(to).edges, sides.push((o.current, o.start))),
        o.edges.is_prefix_of(o.move_to(to).edges),
        o.move_to(to).current == to,
        o.move_to(to).start == to,
{
    lemma_traces_segment(o.edges, sides, (o.current, o.start));
}

/// Drawing chords adds each of them as a side, and moves the current point to
/// the given one.
pub proof fn law_chords_add_sides(o: Outline, sides: Seq<Side>, chords: Seq<Chord>, to: (i32, i32))
    requires
        traces(o.edges, sides),
    ensures
        traces(o.chords_to(chords, to).edges, sides + chords),
        o.edges.is_prefix_of(o.chords_to(chords, to).edges),
        o.chords_to(chords, to).current == to,
        o.chords_to(chords, to).start == o.start,
{
    lemma_traces_chords(o.edges, sides, chords);
}

proof fn lemma_traces_chords(edges: Seq<Edge>, sides: Seq<Side>, chords: Seq<Chord>)
    requires
        traces(edges, sides),
    ensures
        traces(edges + curve::chord_edges(chords), sides + chords),
    decreases chords.len(),
{
    if chords.len() == 0 {
        assert(edges + curve::chord_edges(chords) =~= edges);
        assert(sides + chords =~= sides);
    } else {
        let rest = chords.drop_last();
        let last = chords.last();
        lemma_traces_chords(edges, sides, rest);
        lemma_traces_segment(edges + curve::chord_edges(rest), sides + rest, last);
        assert((sides + rest).push(last) =~= sides + chords);
        assert(edges + curve::chord_edges(chords) =~= edges + curve::chord_edges(rest)
            + outline::segment(last.0, last.1));
    }
}

/// All points of an edge lie within the rectangle of the given pixels.
pub open spec fn inside(e: Edge, left: int, top: int, right: int, bottom: int) -> bool {
    &&& left * 256 <= e.xl <= right * 256
    &&& left * 256 <= e.xh <= right * 256
    &&& top * 256 <= e.yl
    &&& e.yh <= bottom * 256
}

/// The extents of a path are the smallest rectangle of whole pixels that holds
/// all of its points: they hold them, and every other such rectangle holds the
/// extents.
pub proof fn law_extents_are_smallest(
    edges: Seq<Edge>,
    ext: Extents,
    left: int,
    top: int,
    right: int,
    bottom: int,
)
    requires
        scene::bounds(edges, ext),
        forall|i: int|
            0 <= i < edges.len() ==> inside(#[trigger] edges[i], left, top, right, bottom),
    ensures
        forall|i: int|
            0 <= i < edges.len() ==> inside(
                #[trigger] edges[i],
                ext.x0 as int,
                ext.y0 as int,
                ext.x0 + ext.width,
                ext.y0 + ext.height,
            ),
        left <= ext.x0,
        top <= ext.y0,
        ext.x0 + ext.width <= right,
        ext.y0 + ext.height <= bottom,
{
    assert forall|i: int| 0 <= i < edges.len() implies inside(
        #[trigger] edges[i],
        ext.x0 as int,
        ext.y0 as int,
        ext.x0 + ext.width,
        ext.y0 + ext.height,
    ) by {
        assert(ext.x0 <= scene::left_of(edges[i]));
    }
}

/// Without geometry the extents have no pixels and lie at the origin.
pub proof fn law_empty_extents()
    ensures
        Extents::spec_empty().x0 == 0,
        Extents::spec_empty().y0 == 0,
        Extents::spec_empty().width == 0,
        Extents::spec_empty().height == 0,
{
}

} // verus!
