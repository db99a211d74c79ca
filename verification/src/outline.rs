//! The mathematical model of a path under construction.
use crate::curve;
use crate::curve::Chord;
use crate::edge::Edge;
use vstd::prelude::*;

verus! {

/// A path: the edges drawn so far, the current point, and the first point of
/// the current contour. Points are in sub-pixel units.
#[verifier::ext_equal]
pub struct Outline {
    pub edges: Seq<Edge>,
    pub current: (i32, i32),
    pub start: (i32, i32),
}

/// The edges of the segment from `from` to `to`. A horizontal segment has no
/// edge.
pub open spec fn segment(from: (i32, i32), to: (i32, i32)) -> Seq<Edge> {
    if from.1 == to.1 {
        Seq::empty()
    } else {
        seq![Edge::spec_between(from.0, from.1, to.0, to.1)]
    }
}

impl Outline {
    /// The path on which nothing has been drawn.
    pub open spec fn empty() -> Outline {
        Outline { edges: Seq::empty(), current: (0, 0), start: (0, 0) }
    }

    /// The path extended by a straight line.
    pub open spec fn line_to(self, to: (i32, i32)) -> Outline {
        Outline { edges: self.edges + segment(self.current, to), current: to, start: self.start }
    }

    /// The path extended by the chords of a curve that ends at `to`.
    pub open spec fn chords_to(self, chords: Seq<Chord>, to: (i32, i32)) -> Outline {
        Outline {
            edges: self.edges + curve::chord_edges(chords),
            current: to,
            start: self.start,
        }
    }

    /// The path with its current contour closed.
    pub open spec fn closed(self) -> Outline {
        self.line_to(self.start)
    }

    /// The path with its current contour closed and a new one begun.
    pub open spec fn move_to(self, to: (i32, i32)) -> Outline {
        Outline { edges: self.closed().edges, current: to, start: to }
    }
}

} // verus!
