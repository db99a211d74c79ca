//! Bézier curves and their flattening into chords.
//!
//! A curve is halved (de Casteljau at t = 0.5) until each piece is flat
//! enough to be replaced by its chord, or until it has been halved
//! `MAX_DEPTH` times. The number type of the coordinates is left to the
//! caller, who supplies the operations on it: the midpoint of two
//! coordinates, the flatness test along one axis, and the conversion to
//! sub-pixel units.
use crate::edge::Edge;
use crate::fixed;
use crate::outline;
use vstd::prelude::*;

verus! {

/// Maximum Bézier flattening subdivision depth.
pub const MAX_DEPTH: usize = 16;

/// A chord, from its first to its second point, in sub-pixel units.
pub type Chord = ((i32, i32), (i32, i32));

/// The edges of a sequence of chords.
pub open spec fn chord_edges(chords: Seq<Chord>) -> Seq<Edge>
    decreases chords.len(),
{
    if chords.len() == 0 {
        Seq::empty()
    } else {
        chord_edges(chords.drop_last()) + outline::segment(chords.last().0, chords.last().1)
    }
}

/// The edges of two sequences of chords, one after the other.
pub proof fn lemma_chord_edges_add(a: Seq<Chord>, b: Seq<Chord>)
    ensures
        chord_edges(a + b) == chord_edges(a) + chord_edges(b),
    decreases b.len(),
{
    if b.len() == 0 {
        assert(a + b =~= a);
        assert(chord_edges(a) + chord_edges(b) =~= chord_edges(a));
    } else {
        assert((a + b).drop_last() =~= a + b.drop_last());
        lemma_chord_edges_add(a, b.drop_last());
        assert(chord_edges(a + b) =~= chord_edges(a) + chord_edges(b));
    }
}

/// The edges of a single chord.
pub proof fn lemma_chord_edges_one(c: Chord)
    ensures
        chord_edges(seq![c]) == outline::segment(c.0, c.1),
{
    assert(seq![c].drop_last() =~= Seq::<Chord>::empty());
    assert(chord_edges(Seq::empty()) =~= Seq::empty());
    assert(chord_edges(seq![c]) =~= outline::segment(c.0, c.1));
}

/// A quadratic Bézier curve.
pub struct Quad<T> {
    pub x0: T,
    pub y0: T,
    pub x1: T,
    pub y1: T,
    pub x2: T,
    pub y2: T,
}

impl<T> Quad<T> {
    /// The curve from its other end.
    pub open spec fn reversed(self) -> Quad<T> {
        Quad { x0: self.x2, y0: self.y2, x1: self.x1, y1: self.y1, x2: self.x0, y2: self.y0 }
    }
}

impl<T: Copy> Copy for Quad<T> {

}

impl<T: Copy> Clone for Quad<T> {
    fn clone(&self) -> (q: Quad<T>)
        ensures
            q == *self,
    {
        *self
    }
}

/// The operations on the coordinates of a quadratic curve, as mathematical
/// functions.
#[verifier::reject_recursive_types(T)]
pub struct QuadOps<T> {
    pub mid: spec_fn(T, T) -> T,
    pub flat: spec_fn(T, T, T) -> bool,
    pub fix: spec_fn(T) -> i32,
}

impl<T> QuadOps<T> {
    /// The executable operations compute these functions.
    pub open spec fn describe<M: Fn(T, T) -> T, F: Fn(T, T, T) -> bool, P: Fn(T) -> i32>(
        self,
        mid: M,
        flat: F,
        fix: P,
    ) -> bool {
        &&& forall|a: T, b: T, r: T| #[trigger]
            call_ensures(mid, (a, b), r) ==> r == (self.mid)(a, b)
        &&& forall|a: T, b: T, c: T, r: bool| #[trigger]
            call_ensures(flat, (a, b, c), r) ==> r == (self.flat)(a, b, c)
        &&& forall|a: T, r: i32| #[trigger] call_ensures(fix, (a,), r) ==> r == (self.fix)(a)
    }

    /// The curve is flat along both axes.
    pub open spec fn is_flat(self, q: Quad<T>) -> bool {
        (self.flat)(q.x0, q.x1, q.x2) && (self.flat)(q.y0, q.y1, q.y2)
    }

    /// The first half of a curve.
    pub open spec fn left(self, q: Quad<T>) -> Quad<T> {
        let x01 = (self.mid)(q.x0, q.x1);
        let y01 = (self.mid)(q.y0, q.y1);
        let x12 = (self.mid)(q.x1, q.x2);
        let y12 = (self.mid)(q.y1, q.y2);
        Quad {
            x0: q.x0,
            y0: q.y0,
            x1: x01,
            y1: y01,
            x2: (self.mid)(x01, x12),
            y2: (self.mid)(y01, y12),
        }
    }

    /// The second half of a curve.
    pub open spec fn right(self, q: Quad<T>) -> Quad<T> {
        let x12 = (self.mid)(q.x1, q.x2);
        let y12 = (self.mid)(q.y1, q.y2);
        Quad {
            x0: self.left(q).x2,
            y0: self.left(q).y2,
            x1: x12,
            y1: y12,
            x2: q.x2,
            y2: q.y2,
        }
    }

    /// The operations do not depend on the order of their arguments.
    pub open spec fn symmetric(self) -> bool {
        &&& forall|a: T, b: T| #[trigger] self.commute(a, b)
        &&& forall|a: T, b: T, c: T| #[trigger] (self.flat)(a, b, c) == (self.flat)(c, b, a)
    }

    /// The midpoint of two coordinates does not depend on their order.
    pub open spec fn commute(self, a: T, b: T) -> bool {
        (self.mid)(a, b) == (self.mid)(b, a)
    }

    /// Along one axis, the operations treat both ends of a curve alike.
    pub open spec fn alike(self, a: T, b: T, c: T) -> bool {
        let ab = (self.mid)(a, b);
        let bc = (self.mid)(b, c);
        &&& (self.flat)(a, b, c) == (self.flat)(c, b, a)
        &&& self.commute(a, b)
        &&& self.commute(b, c)
        &&& self.commute(ab, bc)
    }

    /// The operations treat both ends alike of a curve that has been halved
    /// `depth` times already, and of all pieces that it is cut into.
    pub open spec fn symmetric_on(self, q: Quad<T>, depth: int) -> bool
        decreases MAX_DEPTH - depth,
    {
        &&& self.alike(q.x0, q.x1, q.x2)
        &&& self.alike(q.y0, q.y1, q.y2)
        &&& depth < MAX_DEPTH && !self.is_flat(q) ==> {
            &&& self.symmetric_on(self.left(q), depth + 1)
            &&& self.symmetric_on(self.right(q), depth + 1)
        }
    }

    /// The chord of a curve.
    pub open spec fn chord(self, q: Quad<T>) -> Chord {
        (((self.fix)(q.x0), (self.fix)(q.y0)), ((self.fix)(q.x2), (self.fix)(q.y2)))
    }

    /// The chords of a curve that has been halved `depth` times already.
    pub open spec fn chords(self, q: Quad<T>, depth: int) -> Seq<Chord>
        decreases MAX_DEPTH - depth,
    {
        if depth >= MAX_DEPTH || self.is_flat(q) {
            seq![self.chord(q)]
        } else {
            self.chords(self.left(q), depth + 1) + self.chords(self.right(q), depth + 1)
        }
    }

    /// The chords of the first `n` postponed pieces, the last one first.
    pub open spec fn postponed(self, stack: Seq<(Quad<T>, usize)>, n: int) -> Seq<Chord>
        decreases n,
    {
        if n <= 0 {
            Seq::empty()
        } else {
            self.chords(stack[n - 1].0, stack[n - 1].1 as int) + self.postponed(stack, n - 1)
        }
    }

    /// Postponed pieces beyond the first `n` do not matter.
    pub proof fn lemma_postponed(
        self,
        a: Seq<(Quad<T>, usize)>,
        b: Seq<(Quad<T>, usize)>,
        n: int,
    )
        requires
            forall|i: int| 0 <= i < n ==> #[trigger] a[i] == b[i],
        ensures
            self.postponed(a, n) == self.postponed(b, n),
        decreases n,
    {
        if n > 0 {
            self.lemma_postponed(a, b, n - 1);
        }
    }
}

/// A cubic Bézier curve.
pub struct Cubic<T> {
    pub x0: T,
    pub y0: T,
    pub x1: T,
    pub y1: T,
    pub x2: T,
    pub y2: T,
    pub x3: T,
    pub y3: T,
}

impl<T> Cubic<T> {
    /// The curve from its other end.
    pub open spec fn reversed(self) -> Cubic<T> {
        Cubic {
            x0: self.x3,
            y0: self.y3,
            x1: self.x2,
            y1: self.y2,
            x2: self.x1,
            y2: self.y1,
            x3: self.x0,
            y3: self.y0,
        }
    }
}

impl<T: Copy> Copy for Cubic<T> {

}

impl<T: Copy> Clone for Cubic<T> {
    fn clone(&self) -> (c: Cubic<T>)
        ensures
            c == *self,
    {
        *self
    }
}

/// The operations on the coordinates of a cubic curve, as mathematical
/// functions.
#[verifier::reject_recursive_types(T)]
pub struct CubicOps<T> {
    pub mid: spec_fn(T, T) -> T,
    pub flat: spec_fn(T, T, T, T) -> bool,
    pub fix: spec_fn(T) -> i32,
}

impl<T> CubicOps<T> {
    /// The executable operations compute these functions.
    pub open spec fn describe<M: Fn(T, T) -> T, F: Fn(T, T, T, T) -> bool, P: Fn(T) -> i32>(
        self,
        mid: M,
        flat: F,
        fix: P,
    ) -> bool {
        &&& forall|a: T, b: T, r: T| #[trigger]
            call_ensures(mid, (a, b), r) ==> r == (self.mid)(a, b)
        &&& forall|a: T, b: T, c: T, d: T, r: bool| #[trigger]
            call_ensures(flat, (a, b, c, d), r) ==> r == (self.flat)(a, b, c, d)
        &&& forall|a: T, r: i32| #[trigger] call_ensures(fix, (a,), r) ==> r == (self.fix)(a)
    }

    /// The curve is flat along both axes.
    pub open spec fn is_flat(self, c: Cubic<T>) -> bool {
        (self.flat)(c.x0, c.x1, c.x2, c.x3) && (self.flat)(c.y0, c.y1, c.y2, c.y3)
    }

    /// The first half of a curve.
    pub open spec fn left(self, c: Cubic<T>) -> Cubic<T> {
        let x01 = (self.mid)(c.x0, c.x1);
        let y01 = (self.mid)(c.y0, c.y1);
        let x12 = (self.mid)(c.x1, c.x2);
        let y12 = (self.mid)(c.y1, c.y2);
        let x23 = (self.mid)(c.x2, c.x3);
        let y23 = (self.mid)(c.y2, c.y3);
        let x012 = (self.mid)(x01, x12);
        let y012 = (self.mid)(y01, y12);
        let x123 = (self.mid)(x12, x23);
        let y123 = (self.mid)(y12, y23);
        Cubic {
            x0: c.x0,
            y0: c.y0,
            x1: x01,
            y1: y01,
            x2: x012,
            y2: y012,
            x3: (self.mid)(x012, x123),
            y3: (self.mid)(y012, y123),
        }
    }

    /// The second half of a curve.
    pub open spec fn right(self, c: Cubic<T>) -> Cubic<T> {
        let x12 = (self.mid)(c.x1, c.x2);
        let y12 = (self.mid)(c.y1, c.y2);
        let x23 = (self.mid)(c.x2, c.x3);
        let y23 = (self.mid)(c.y2, c.y3);
        Cubic {
            x0: self.left(c).x3,
            y0: self.left(c).y3,
            x1: (self.mid)(x12, x23),
            y1: (self.mid)(y12, y23),
            x2: x23,
            y2: y23,
            x3: c.x3,
            y3: c.y3,
        }
    }

    /// The operations do not depend on the order of their arguments.
    pub open spec fn symmetric(self) -> bool {
        &&& forall|a: T, b: T| #[trigger] self.commute(a, b)
        &&& forall|a: T, b: T, c: T, d: T| #[trigger]
            (self.flat)(a, b, c, d) == (self.flat)(d, c, b, a)
    }

    /// The midpoint of two coordinates does not depend on their order.
    pub open spec fn commute(self, a: T, b: T) -> bool {
        (self.mid)(a, b) == (self.mid)(b, a)
    }

    /// Along one axis, the operations treat both ends of a curve alike.
    pub open spec fn alike(self, a: T, b: T, c: T, d: T) -> bool {
        let ab = (self.mid)(a, b);
        let bc = (self.mid)(b, c);
        let cd = (self.mid)(c, d);
        &&& (self.flat)(a, b, c, d) == (self.flat)(d, c, b, a)
        &&& self.commute(a, b)
        &&& self.commute(b, c)
        &&& self.commute(c, d)
        &&& self.commute(ab, bc)
        &&& self.commute(bc, cd)
        &&& self.commute((self.mid)(ab, bc), (self.mid)(bc, cd))
    }

    /// The operations treat both ends alike of a curve that has been halved
    /// `depth` times already, and of all pieces that it is cut into.
    pub open spec fn symmetric_on(self, c: Cubic<T>, depth: int) -> bool
        decreases MAX_DEPTH - depth,
    {
        &&& self.alike(c.x0, c.x1, c.x2, c.x3)
        &&& self.alike(c.y0, c.y1, c.y2, c.y3)
        &&& depth < MAX_DEPTH && !self.is_flat(c) ==> {
            &&& self.symmetric_on(self.left(c), depth + 1)
            &&& self.symmetric_on(self.right(c), depth + 1)
        }
    }

    /// The chord of a curve.
    pub open spec fn chord(self, c: Cubic<T>) -> Chord {
        (((self.fix)(c.x0), (self.fix)(c.y0)), ((self.fix)(c.x3), (self.fix)(c.y3)))
    }

    /// The chords of a curve that has been halved `depth` times already.
    pub open spec fn chords(self, c: Cubic<T>, depth: int) -> Seq<Chord>
        decreases MAX_DEPTH - depth,
    {
        if depth >= MAX_DEPTH || self.is_flat(c) {
            seq![self.chord(c)]
        } else {
            self.chords(self.left(c), depth + 1) + self.chords(self.right(c), depth + 1)
        }
    }

    /// The chords of the first `n` postponed pieces, the last one first.
    pub open spec fn postponed(self, stack: Seq<(Cubic<T>, usize)>, n: int) -> Seq<Chord>
        decreases n,
    {
        if n <= 0 {
            Seq::empty()
        } else {
            self.chords(stack[n - 1].0, stack[n - 1].1 as int) + self.postponed(stack, n - 1)
        }
    }

    /// Postponed pieces beyond the first `n` do not matter.
    pub proof fn lemma_postponed(
        self,
        a: Seq<(Cubic<T>, usize)>,
        b: Seq<(Cubic<T>, usize)>,
        n: int,
    )
        requires
            forall|i: int| 0 <= i < n ==> #[trigger] a[i] == b[i],
        ensures
            self.postponed(a, n) == self.postponed(b, n),
        decreases n,
    {
        if n > 0 {
            self.lemma_postponed(a, b, n - 1);
        }
    }
}

/// The operations of a quadratic curve in exact arithmetic, on coordinates in
/// units of which a pixel has `pixel`. A curve is flat if its control point
/// deviates by no more than a quarter of a pixel. Midpoints are rounded down,
/// which leaves them exact on curves whose coordinates are multiples of `2^48`.
pub open spec fn exact_quad(pixel: int, fix: spec_fn(int) -> i32) -> QuadOps<int> {
    QuadOps {
        mid: |a: int, b: int| (a + b) / 2,
        flat: |a: int, b: int, c: int| 4 * fixed::abs(a + c - 2 * b) <= pixel,
        fix,
    }
}

/// The operations of a cubic curve in exact arithmetic, on coordinates in units
/// of which a pixel has `pixel`. A curve is flat if its control points deviate
/// by no more than half a pixel from where they trisect the chord. Midpoints are
/// rounded down, which leaves them exact on curves whose coordinates are
/// multiples of `2^48`.
pub open spec fn exact_cubic(pixel: int, fix: spec_fn(int) -> i32) -> CubicOps<int> {
    CubicOps {
        mid: |a: int, b: int| (a + b) / 2,
        flat: |a: int, b: int, c: int, d: int|
            2 * fixed::abs(2 * a - 3 * b + d) <= pixel && 2 * fixed::abs(a - 3 * c + 2 * d)
                <= pixel,
        fix,
    }
}

/// Number of pieces that a curve halved `depth` times already can still be
/// cut into, itself included.
pub open spec fn pieces(depth: int) -> nat
    decreases MAX_DEPTH - depth,
{
    if depth >= MAX_DEPTH {
        1
    } else {
        1 + 2 * pieces(depth + 1)
    }
}

/// Number of pieces that `n` postponed curves can still be cut into.
pub open spec fn postponed_pieces(depths: Seq<usize>, n: int) -> nat
    decreases n,
{
    if n <= 0 {
        0
    } else {
        pieces(depths[n - 1] as int) + postponed_pieces(depths, n - 1)
    }
}

/// Postponed pieces beyond the first `n` do not matter.
pub proof fn lemma_postponed_pieces(a: Seq<usize>, b: Seq<usize>, n: int)
    requires
        forall|i: int| 0 <= i < n ==> #[trigger] a[i] == b[i],
    ensures
        postponed_pieces(a, n) == postponed_pieces(b, n),
    decreases n,
{
    if n > 0 {
        lemma_postponed_pieces(a, b, n - 1);
    }
}

} // verus!
