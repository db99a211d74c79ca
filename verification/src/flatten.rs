//! Drawing of Bézier curves by recursive halving.
use crate::curve;
use crate::curve::{Cubic, CubicOps, Quad, QuadOps, MAX_DEPTH};
use crate::raster::Raster;
use vstd::prelude::*;

verus! {

impl Raster {
    /// Draw the chords of a quadratic curve. Second halves wait on a stack
    /// while first halves are cut further; since the depth is capped at
    /// `MAX_DEPTH`, so is the height of the stack.
    pub(crate) fn flatten_quadratic<
        T: Copy,
        M: Fn(T, T) -> T,
        F: Fn(T, T, T) -> bool,
        P: Fn(T) -> i32,
    >(&mut self, quad: Quad<T>, mid: M, flat: F, fix: P)
        requires
            old(self).wf(),
            forall|a: T, b: T| #[trigger] call_requires(mid, (a, b)),
            forall|a: T, b: T, c: T| #[trigger] call_requires(flat, (a, b, c)),
            forall|a: T| #[trigger] call_requires(fix, (a,)),
        ensures
            final(self).wf(),
            final(self)@.current == old(self)@.current,
            final(self)@.start == old(self)@.start,
            old(self)@.edges.is_prefix_of(final(self)@.edges),
            forall|ops: QuadOps<T>| #[trigger]
                ops.describe(mid, flat, fix) ==> final(self)@.edges == old(self)@.edges
                    + curve::chord_edges(ops.chords(quad, 0)),
    {
        let mut q: Quad<T> = quad;
        let mut depth: usize = 0;
        let mut stack: [(Quad<T>, usize); 16] = [(quad, 0);16];
        let mut top: usize = 0;
        loop
            invariant
                self.wf(),
                self@.current == old(self)@.current,
                self@.start == old(self)@.start,
                old(self)@.edges.is_prefix_of(self@.edges),
                forall|a: T, b: T| #[trigger] call_requires(mid, (a, b)),
                forall|a: T, b: T, c: T| #[trigger] call_requires(flat, (a, b, c)),
                forall|a: T| #[trigger] call_requires(fix, (a,)),
                top <= depth <= MAX_DEPTH,
                forall|i: int| 0 <= i < top ==> i < (#[trigger] stack@[i]).1 <= depth,
                forall|i: int, j: int|
                    0 <= i < j < top ==> (#[trigger] stack@[i]).1 < (#[trigger] stack@[j]).1,
                forall|ops: QuadOps<T>| #[trigger]
                    ops.describe(mid, flat, fix) ==> self@.edges + curve::chord_edges(
                        ops.chords(q, depth as int) + ops.postponed(stack@, top as int),
                    ) =~= old(self)@.edges + curve::chord_edges(ops.chords(quad, 0)),
            decreases
                    curve::pieces(depth as int) + curve::postponed_pieces(
                        stack@.map_values(|p: (Quad<T>, usize)| p.1),
                        top as int,
                    ),
        {
            let ghost q1 = q;
            let ghost depth1 = depth as int;
            let ghost stack1 = stack@;
            let ghost top1 = top as int;
            if depth >= MAX_DEPTH || (flat(q.x0, q.x1, q.x2) && flat(q.y0, q.y1, q.y2)) {
                let (x0, y0): (i32, i32) = (fix(q.x0), fix(q.y0));
                let (x2, y2): (i32, i32) = (fix(q.x2), fix(q.y2));
                self.emit_segment(x0, y0, x2, y2);
                proof {
                    assert forall|ops: QuadOps<T>| #[trigger]
                        ops.describe(mid, flat, fix) implies self@.edges + curve::chord_edges(
                        ops.postponed(stack1, top1),
                    ) =~= old(self)@.edges + curve::chord_edges(ops.chords(quad, 0)) by {
                        assert(ops.chords(q1, depth1) == seq![ops.chord(q1)]);
                        curve::lemma_chord_edges_add(
                            seq![ops.chord(q1)],
                            ops.postponed(stack1, top1),
                        );
                        curve::lemma_chord_edges_one(ops.chord(q1));
                    }
                }
                if top == 0 {
                    return ;
                }
                top = top - 1;
                q = stack[top].0;
                depth = stack[top].1;
            } else {
                let (x01, y01): (T, T) = (mid(q.x0, q.x1), mid(q.y0, q.y1));
                let (x12, y12): (T, T) = (mid(q.x1, q.x2), mid(q.y1, q.y2));
                let (xm, ym): (T, T) = (mid(x01, x12), mid(y01, y12));

                stack[top] = (
                    Quad { x0: xm, y0: ym, x1: x12, y1: y12, x2: q.x2, y2: q.y2 },
                    depth + 1,
                );
                top = top + 1;
                q = Quad { x0: q.x0, y0: q.y0, x1: x01, y1: y01, x2: xm, y2: ym };
                depth = depth + 1;
                proof {
                    assert forall|ops: QuadOps<T>| #[trigger]
                        ops.describe(mid, flat, fix) implies ops.chords(q, depth as int)
                        + ops.postponed(stack@, top as int) =~= ops.chords(q1, depth1)
                        + ops.postponed(stack1, top1) by {
                        assert(q == ops.left(q1));
                        assert(stack@[top1].0 == ops.right(q1));
                        ops.lemma_postponed(stack@, stack1, top1);
                    }
                    curve::lemma_postponed_pieces(
                        stack@.map_values(|p: (Quad<T>, usize)| p.1),
                        stack1.map_values(|p: (Quad<T>, usize)| p.1),
                        top1,
                    );
                }
            }
        }
    }

    /// Draw the chords of a cubic curve. Second halves wait on a stack
    /// while first halves are cut further; since the depth is capped at
    /// `MAX_DEPTH`, so is the height of the stack.
    pub(crate) fn flatten_cubic<
        T: Copy,
        M: Fn(T, T) -> T,
        F: Fn(T, T, T, T) -> bool,
        P: Fn(T) -> i32,
    >(&mut self, cubic: Cubic<T>, mid: M, flat: F, fix: P)
        requires
            old(self).wf(),
            forall|a: T, b: T| #[trigger] call_requires(mid, (a, b)),
            forall|a: T, b: T, c: T, d: T| #[trigger] call_requires(flat, (a, b, c, d)),
            forall|a: T| #[trigger] call_requires(fix, (a,)),
        ensures
            final(self).wf(),
            final(self)@.current == old(self)@.current,
            final(self)@.start == old(self)@.start,
            old(self)@.edges.is_prefix_of(final(self)@.edges),
            forall|ops: CubicOps<T>| #[trigger]
                ops.describe(mid, flat, fix) ==> final(self)@.edges == old(self)@.edges
                    + curve::chord_edges(ops.chords(cubic, 0)),
    {
        let mut c: Cubic<T> = cubic;
        let mut depth: usize = 0;
        let mut stack: [(Cubic<T>, usize); 16] = [(cubic, 0);16];
        let mut top: usize = 0;
        loop
            invariant
                self.wf(),
                self@.current == old(self)@.current,
                self@.start == old(self)@.start,
                old(self)@.edges.is_prefix_of(self@.edges),
                forall|a: T, b: T| #[trigger] call_requires(mid, (a, b)),
                forall|a: T, b: T, c: T, d: T| #[trigger] call_requires(flat, (a, b, c, d)),
                forall|a: T| #[trigger] call_requires(fix, (a,)),
                top <= depth <= MAX_DEPTH,
                forall|i: int| 0 <= i < top ==> i < (#[trigger] stack@[i]).1 <= depth,
                forall|i: int, j: int|
                    0 <= i < j < top ==> (#[trigger] stack@[i]).1 < (#[trigger] stack@[j]).1,
                forall|ops: CubicOps<T>| #[trigger]
                    ops.describe(mid, flat, fix) ==> self@.edges + curve::chord_edges(
                        ops.chords(c, depth as int) + ops.postponed(stack@, top as int),
                    ) =~= old(self)@.edges + curve::chord_edges(ops.chords(cubic, 0)),
            decreases
                    curve::pieces(depth as int) + curve::postponed_pieces(
                        stack@.map_values(|p: (Cubic<T>, usize)| p.1),
                        top as int,
                    ),
        {
            let ghost c1 = c;
            let ghost depth1 = depth as int;
            let ghost stack1 = stack@;
            let ghost top1 = top as int;
            if depth >= MAX_DEPTH || (flat(c.x0, c.x1, c.x2, c.x3) && flat(c.y0, c.y1, c.y2, c.y3)) {
                let (x0, y0): (i32, i32) = (fix(c.x0), fix(c.y0));
                let (x3, y3): (i32, i32) = (fix(c.x3), fix(c.y3));
                self.emit_segment(x0, y0, x3, y3);
                proof {
                    assert forall|ops: CubicOps<T>| #[trigger]
                        ops.describe(mid, flat, fix) implies self@.edges + curve::chord_edges(
                        ops.postponed(stack1, top1),
                    ) =~= old(self)@.edges + curve::chord_edges(ops.chords(cubic, 0)) by {
                        assert(ops.chords(c1, depth1) == seq![ops.chord(c1)]);
                        curve::lemma_chord_edges_add(
                            seq![ops.chord(c1)],
                            ops.postponed(stack1, top1),
                        );
                        curve::lemma_chord_edges_one(ops.chord(c1));
                    }
                }
                if top == 0 {
                    return ;
                }
                top = top - 1;
                c = stack[top].0;
                depth = stack[top].1;
            } else {
                let (x01, y01): (T, T) = (mid(c.x0, c.x1), mid(c.y0, c.y1));
                let (x12, y12): (T, T) = (mid(c.x1, c.x2), mid(c.y1, c.y2));
                let (x23, y23): (T, T) = (mid(c.x2, c.x3), mid(c.y2, c.y3));
                let (x012, y012): (T, T) = (mid(x01, x12), mid(y01, y12));
                let (x123, y123): (T, T) = (mid(x12, x23), mid(y12, y23));
                let (xm, ym): (T, T) = (mid(x012, x123), mid(y012, y123));

                stack[top] = (
                    Cubic {
                        x0: xm,
                        y0: ym,
                        x1: x123,
                        y1: y123,
                        x2: x23,
                        y2: y23,
                        x3: c.x3,
                        y3: c.y3,
                    },
                    depth + 1,
                );
                top = top + 1;
                c = Cubic {
                    x0: c.x0,
                    y0: c.y0,
                    x1: x01,
                    y1: y01,
                    x2: x012,
                    y2: y012,
                    x3: xm,
                    y3: ym,
                };
                depth = depth + 1;
                proof {
                    assert forall|ops: CubicOps<T>| #[trigger]
                        ops.describe(mid, flat, fix) implies ops.chords(c, depth as int)
                        + ops.postponed(stack@, top as int) =~= ops.chords(c1, depth1)
                        + ops.postponed(stack1, top1) by {
                        assert(c == ops.left(c1));
                        assert(stack@[top1].0 == ops.right(c1));
                        ops.lemma_postponed(stack@, stack1, top1);
                    }
                    curve::lemma_postponed_pieces(
                        stack@.map_values(|p: (Cubic<T>, usize)| p.1),
                        stack1.map_values(|p: (Cubic<T>, usize)| p.1),
                        top1,
                    );
                }
            }
        }
    }
}

} // verus!
