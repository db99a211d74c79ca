//! The rasterizer.
use crate::capacity::scene_fits;
use crate::curve::{Cubic, CubicOps, Quad, QuadOps};
use crate::drawing;
use crate::edge::Edge;
use crate::fixed;
use crate::fixed::{pixel_of, PIXEL_BITS, PIXEL_MASK};
use crate::outline;
use crate::outline::Outline;
use crate::rows;
use crate::rows::{bucket_edges, finish_row, sweep_active};
use crate::scene;
use crate::scene::Extents;
use crate::shade;
use vstd::prelude::*;

verus! {

/// An analytic coverage rasterizer.
///
/// Feed it a path with [`Raster::move_to`] and friends (in device-space
/// sub-pixel coordinates, 256 units per pixel), then call [`Raster::render`]
/// to produce A8 coverage. Rendering clears the accumulated geometry, so a
/// single `Raster` can be reused for many paths without reallocating.
pub struct Raster {
    edges: Vec<Edge>,
    row_area: Vec<i32>,
    row_cover: Vec<i32>,
    edge_buckets: Vec<Vec<u32>>,
    active_edges: Vec<u32>,
    /// Current point of the path being accumulated.
    current: (i32, i32),
    /// First point of the current contour.
    start: (i32, i32),
}

impl View for Raster {
    type V = Outline;

    closed spec fn view(&self) -> Outline {
        Outline { edges: self.edges@, current: self.current, start: self.start }
    }
}

impl Default for Raster {
    fn default() -> (r: Raster)
        ensures
            r.wf(),
            r@ == Outline::empty(),
    {
        Raster::new()
    }
}

impl Raster {
    /// Every accumulated edge is normalized.
    pub open spec fn wf(&self) -> bool {
        scene::all_wf(self@.edges)
    }

    pub fn new() -> (r: Raster)
        ensures
            r.wf(),
            r@ == Outline::empty(),
    {
        Raster {
            edges: Vec::new(),
            row_area: Vec::new(),
            row_cover: Vec::new(),
            edge_buckets: Vec::new(),
            active_edges: Vec::new(),
            current: (0, 0),
            start: (0, 0),
        }
    }

    /// Discard all accumulated geometry.
    pub fn clear(&mut self)
        ensures
            final(self).wf(),
            final(self)@ == Outline::empty(),
    {
        self.edges.clear();
        self.active_edges.clear();
        self.current = (0, 0);
        self.start = (0, 0);
    }

    /// Begin a new contour at `(x, y)`. Filling is defined on closed contours
    /// only, so the previous contour is closed first.
    pub fn move_to(&mut self, x: i32, y: i32)
        requires
            old(self).wf(),
        ensures
            final(self).wf(),
            final(self)@ == old(self)@.move_to((x, y)),
    {
        self.close_path();
        self.current = (x, y);
        self.start = (x, y);
    }

    /// Draw a straight line to `(x, y)`.
    pub fn line_to(&mut self, x: i32, y: i32)
        requires
            old(self).wf(),
        ensures
            final(self).wf(),
            final(self)@ == old(self)@.line_to((x, y)),
    {
        let (x0, y0): (i32, i32) = self.current;
        self.emit_segment(x0, y0, x, y);
        self.current = (x, y);
    }

    /// Draw a quadratic Bézier curve.
    ///
    /// The curve carries its first point, which is the current point before
    /// its conversion to sub-pixel units. `mid` gives the midpoint of two
    /// coordinates, `flat` says whether the three coordinates along one axis
    /// are flat enough to draw a chord, and `fix` converts a coordinate to
    /// sub-pixel units.
    pub fn quad_to<T: Copy, M: Fn(T, T) -> T, F: Fn(T, T, T) -> bool, P: Fn(T) -> i32>(
        &mut self,
        quad: Quad<T>,
        mid: M,
        flat: F,
        fix: P,
    )
        requires
            old(self).wf(),
            forall|a: T, b: T| #[trigger] call_requires(mid, (a, b)),
            forall|a: T, b: T, c: T| #[trigger] call_requires(flat, (a, b, c)),
            forall|a: T| #[trigger] call_requires(fix, (a,)),
        ensures
            final(self).wf(),
            final(self)@.start == old(self)@.start,
            call_ensures(fix, (quad.x2,), final(self)@.current.0),
            call_ensures(fix, (quad.y2,), final(self)@.current.1),
            old(self)@.edges.is_prefix_of(final(self)@.edges),
            forall|ops: QuadOps<T>| #[trigger]
                ops.describe(mid, flat, fix) ==> final(self)@ == old(self)@.chords_to(
                    ops.chords(quad, 0),
                    ops.chord(quad).1,
                ),
    {
        let to: (i32, i32) = (fix(quad.x2), fix(quad.y2));
        self.flatten_quadratic(quad, mid, flat, fix);
        self.current = to;
    }

    /// Draw a cubic Bézier curve.
    ///
    /// The curve carries its first point, which is the current point before
    /// its conversion to sub-pixel units. `mid` gives the midpoint of two
    /// coordinates, `flat` says whether the four coordinates along one axis
    /// are flat enough to draw a chord, and `fix` converts a coordinate to
    /// sub-pixel units.
    pub fn curve_to<T: Copy, M: Fn(T, T) -> T, F: Fn(T, T, T, T) -> bool, P: Fn(T) -> i32>(
        &mut self,
        cubic: Cubic<T>,
        mid: M,
        flat: F,
        fix: P,
    )
        requires
            old(self).wf(),
            forall|a: T, b: T| #[trigger] call_requires(mid, (a, b)),
            forall|a: T, b: T, c: T, d: T| #[trigger] call_requires(flat, (a, b, c, d)),
            forall|a: T| #[trigger] call_requires(fix, (a,)),
        ensures
            final(self).wf(),
            final(self)@.start == old(self)@.start,
            call_ensures(fix, (cubic.x3,), final(self)@.current.0),
            call_ensures(fix, (cubic.y3,), final(self)@.current.1),
            old(self)@.edges.is_prefix_of(final(self)@.edges),
            forall|ops: CubicOps<T>| #[trigger]
                ops.describe(mid, flat, fix) ==> final(self)@ == old(self)@.chords_to(
                    ops.chords(cubic, 0),
                    ops.chord(cubic).1,
                ),
    {
        let to: (i32, i32) = (fix(cubic.x3), fix(cubic.y3));
        self.flatten_cubic(cubic, mid, flat, fix);
        self.current = to;
    }

    /// Close the current contour with a straight line back to its start.
    /// This is a no-op if the contour is already closed.
    pub fn close_path(&mut self)
        requires
            old(self).wf(),
        ensures
            final(self).wf(),
            final(self)@ == old(self)@.closed(),
            final(self)@ == old(self)@.line_to(old(self)@.start),
            old(self)@.current == old(self)@.start ==> final(self)@ == old(self)@,
    {
        let (x0, y0): (i32, i32) = self.current;
        let (sx, sy): (i32, i32) = self.start;
        if x0 != sx || y0 != sy {
            self.emit_segment(x0, y0, sx, sy);
            self.current = self.start;
        }
    }

    /// Add the edge of one segment. Horizontal segments have none.
    pub(crate) fn emit_segment(&mut self, x0: i32, y0: i32, x1: i32, y1: i32)
        requires
            old(self).wf(),
        ensures
            final(self).wf(),
            final(self)@ == (Outline {
                edges: old(self)@.edges + outline::segment((x0, y0), (x1, y1)),
                ..old(self)@
            }),
    {
        if y0 == y1 {
            // Horizontal: skip.
            return ;
        }
        self.edges.push(Edge::between(x0, y0, x1, y1));
    }

    /// The pixel extents of the accumulated geometry, or an empty extents
    /// if no geometry has been accumulated.
    pub fn extents(&self) -> (ext: Extents)
        requires
            self.wf(),
        ensures
            self@.edges.len() == 0 ==> ext == Extents::spec_empty(),
            self@.edges.len() > 0 ==> scene::bounds(self@.edges, ext),
    {
        if self.edges.is_empty() {
            return Extents::default();
        }
        let edges: &Vec<Edge> = &self.edges;
        let mut xmin: i32 = edges[0].xl;
        let mut xmax: i32 = edges[0].xl;
        let mut ymin: i32 = edges[0].yl;
        let mut ymax: i32 = edges[0].yh;
        let ghost mut ixmin: int = 0;
        let ghost mut ixmax: int = 0;
        let ghost mut iymin: int = 0;
        let ghost mut iymax: int = 0;
        let mut i: usize = 0;
        while i < edges.len()
            invariant
                0 < edges.len(),
                i <= edges.len(),
                i == 0 ==> xmin == edges[0].xl && xmax == edges[0].xl,
                ymin <= edges[0].yl,
                edges[0].yh <= ymax,
                xmin <= edges[0].xl <= xmax,
                forall|k: int|
                    0 <= k < i ==> xmin <= (#[trigger] edges[k]).xl <= xmax && xmin <= edges[k].xh
                        <= xmax && ymin <= edges[k].yl && edges[k].yh <= ymax,
                0 <= ixmin < edges.len(),
                0 <= ixmax < edges.len(),
                0 <= iymin < edges.len(),
                0 <= iymax < edges.len(),
                xmin == edges[ixmin].xl || xmin == edges[ixmin].xh,
                xmax == edges[ixmax].xl || xmax == edges[ixmax].xh,
                ymin == edges[iymin].yl,
                ymax == edges[iymax].yh,
            decreases edges.len() - i,
        {
            let e: Edge = edges[i];
            let left: i32 = e.xl.min(e.xh);
            let right: i32 = e.xl.max(e.xh);
            proof {
                if left < xmin {
                    ixmin = i as int;
                }
                if xmax < right {
                    ixmax = i as int;
                }
                if e.yl < ymin {
                    iymin = i as int;
                }
                if ymax < e.yh {
                    iymax = i as int;
                }
            }
            xmin = xmin.min(left);
            xmax = xmax.max(right);
            ymin = ymin.min(e.yl);
            ymax = ymax.max(e.yh);
            i = i + 1;
        }

        // Convert fixed-point to pixels (floor for min, ceil for max). The
        // coordinates may be anywhere in the i32 range, so the ceil step is
        // widened to avoid signed overflow.
        let x0: i32 = pixel_of(xmin);
        let y0: i32 = pixel_of(ymin);
        let xm: i64 = xmax as i64 + PIXEL_MASK as i64;
        let ym: i64 = ymax as i64 + PIXEL_MASK as i64;
        assert(xm >> 8i32 == (xm as int) / 256) by (bit_vector);
        assert(ym >> 8i32 == (ym as int) / 256) by (bit_vector);
        let x1: i32 = (xm >> PIXEL_BITS) as i32;
        let y1: i32 = (ym >> PIXEL_BITS) as i32;
        let ext: Extents = Extents {
            x0,
            y0,
            width: (x1 - x0).max(0) as u32,
            height: (y1 - y0).max(0) as u32,
        };
        proof {
            assert(scene::left_of(edges[ixmin]) == x0) by {
                assert(edges[ixmin].xl >= xmin);
            }
            assert(scene::right_of(edges[ixmax]) == x1) by {
                assert(edges[ixmax].xl <= xmax);
            }
            assert(scene::top_of(edges[iymin]) == y0);
            assert(scene::bottom_of(edges[iymax]) == y1);
            assert forall|k: int| 0 <= k < edges.len() implies {
                &&& ext.x0 <= scene::left_of(#[trigger] edges[k])
                &&& scene::right_of(edges[k]) <= ext.x0 + ext.width
                &&& ext.y0 <= scene::top_of(edges[k])
                &&& scene::bottom_of(edges[k]) <= ext.y0 + ext.height
            } by {
                assert(xmin <= edges[k].xl);
            }
            assert(edges@ == self@.edges);
            assert(scene::left_of(self@.edges[ixmin]) == x0);
            assert(scene::right_of(self@.edges[ixmax]) == x1);
            assert(scene::top_of(self@.edges[iymin]) == y0);
            assert(scene::bottom_of(self@.edges[iymax]) == y1);
        }
        ext
    }

    /// Whether the accumulated geometry can be rendered into `extents`.
    ///
    /// [`Raster::render`] computes with 32-bit integers. This can only be
    /// refused for thousands of edges on one pixel row, or for coordinates
    /// near the ends of their range.
    pub fn can_render(&self, extents: Extents) -> (r: bool)
        requires
            self.wf(),
        ensures
            r == scene::renderable(self@.closed().edges, extents),
    {
        if self.edges.len() <= 8190 && -0x4000_0000 <= extents.x0 && extents.x0 <= 0x4000_0000
            && -0x4000_0000 <= extents.y0 && extents.y0 <= 0x4000_0000 && extents.y0 as i64
            + extents.height as i64 <= 0x7f_ffff {
            return true;
        }
        let mut edges: Vec<Edge> = self.edges.clone();
        let (x0, y0): (i32, i32) = self.current;
        let (sx, sy): (i32, i32) = self.start;
        if y0 != sy {
            edges.push(Edge::between(x0, y0, sx, sy));
        }
        proof {
            assert(edges@ =~= self@.closed().edges);
            if scene::modest(edges@, extents) {
                scene::lemma_modest_fits(edges@, extents);
            }
        }
        scene_fits(&edges, extents)
    }

    /// Rasterize the accumulated geometry into `out` as 8-bit alpha
    /// coverage with the given row `stride`, then clear the geometry so
    /// this rasterizer can be reused. An unclosed contour is closed first.
    ///
    /// `out` must hold at least `stride * extents.height` bytes, which are
    /// fully overwritten (including any padding implied by `stride`).
    pub fn render(&mut self, extents: Extents, stride: usize, out: &mut [u8])
        requires
            old(self).wf(),
            extents.width <= stride,
            stride * extents.height <= old(out).len(),
            scene::renderable(old(self)@.closed().edges, extents),
        ensures
            final(self).wf(),
            final(self)@ == Outline::empty(),
            final(out).len() == old(out).len(),
            forall|i: int|
                0 <= i < old(out).len() ==> #[trigger] final(out)[i] == if i < stride
                    * extents.height {
                    scene::output(old(self)@.closed().edges, extents, stride as int, i)
                } else {
                    old(out)[i] as int
                },
    {
        self.close_path();
        let ghost edges = self.edges@;
        let ghost out0 = out@;
        proof {
            assert(edges == self@.edges);
            if scene::modest(edges, extents) {
                scene::lemma_modest_fits(edges, extents);
            }
        }

        let width: usize = extents.width as usize;
        let height: usize = extents.height as usize;
        let total: usize = stride * height;
        let mut k: usize = 0;
        while k < total
            invariant
                k <= total <= out.len(),
                out.len() == out0.len(),
                forall|i: int|
                    0 <= i < out0.len() ==> #[trigger] out[i] == if i < k {
                        0
                    } else {
                        out0[i]
                    },
            decreases total - k,
        {
            out[k] = 0;
            k = k + 1;
        }

        if self.edges.is_empty() || width == 0 || height == 0 {
            proof {
                assert(height == 0 || stride == 0 ==> total == 0) by (nonlinear_arith)
                    requires
                        total == stride * height,
                ;
                assert forall|i: int| 0 <= i < total implies scene::output(
                    edges,
                    extents,
                    stride as int,
                    i,
                ) == 0 by {
                    scene::lemma_blank(edges, extents, stride as int, i);
                }
            }
            self.clear();
            return ;
        }
        self.row_area.clear();
        self.row_area.resize(width, 0);
        self.row_cover.clear();
        self.row_cover.resize(width, 0);

        // Bucket edges by their starting pixel row.
        bucket_edges(&self.edges, &mut self.edge_buckets, extents.y0, height);

        // Scanline loop with active edge list.
        self.active_edges.clear();
        let mut row: u32 = 0;
        while row < extents.height
            invariant
                row <= extents.height,
                width == extents.width,
                height == extents.height,
                0 < width <= stride,
                0 < height,
                total == stride * height,
                total <= out.len(),
                out.len() == out0.len(),
                edges == self.edges@,
                0 < edges.len(),
                scene::all_wf(edges),
                scene::fits(edges, extents),
                height <= self.edge_buckets.len(),
                forall|r: int|
                    0 <= r < height ==> drawing::is_bucket(
                        edges,
                        extents.y0 as int,
                        r,
                        #[trigger] self.edge_buckets@[r]@,
                    ),
                drawing::is_active_before(edges, extents, row as int, self.active_edges@),
                self.row_area.len() == width,
                self.row_cover.len() == width,
                forall|c: int| 0 <= c < width ==> #[trigger] self.row_area[c] == 0,
                forall|c: int| 0 <= c < width ==> #[trigger] self.row_cover[c] == 0,
                forall|i: int|
                    0 <= i < out0.len() ==> #[trigger] out[i] == if i < stride * row {
                        scene::output(edges, extents, stride as int, i)
                    } else if i < total {
                        0
                    } else {
                        out0[i] as int
                    },
            decreases extents.height - row,
        {
            let ghost before = self.active_edges@;
            let ghost bucket = self.edge_buckets@[row as int]@;
            // Add new edges from this row's bucket.
            self.active_edges.extend_from_slice(&self.edge_buckets[row as usize]);
            proof {
                drawing::lemma_row_starts(
                    edges,
                    extents,
                    row as int,
                    before,
                    bucket,
                    self.active_edges@,
                );
            }
            // Process active edges and compact live ones in one linear pass.
            let (x_min, x_max): (usize, usize) = sweep_active(
                &self.edges,
                &mut self.active_edges,
                &mut self.row_area,
                &mut self.row_cover,
                extents,
                row,
            );
            proof {
                lemma_row_in_output(stride as int, row as int, height as int);
                rows::lemma_row_fits(
                    edges,
                    extents,
                    row as int,
                    self.row_area@,
                    self.row_cover@,
                );
            }
            let ghost area = self.row_area@;
            let ghost cover = self.row_cover@;
            let ghost out1 = out@;
            let offset: usize = stride * row as usize;
            let (head, tail) = out.split_at_mut(offset);
            let (row_buf, rest) = tail.split_at_mut(width);
            finish_row(row_buf, &mut self.row_area, &mut self.row_cover, x_min, x_max);
            proof {
                drawing::lemma_row_ends(edges, extents, row as int, self.active_edges@);
                assert forall|i: int| 0 <= i < out0.len() implies #[trigger] out[i] == if i < stride
                    * (row + 1) {
                    scene::output(edges, extents, stride as int, i)
                } else if i < total {
                    0
                } else {
                    out0[i] as int
                } by {
                    lemma_index_in_row(stride as int, row as int, i);
                    assert(out1[i] == if i < stride * row {
                        scene::output(edges, extents, stride as int, i)
                    } else if i < total {
                        0
                    } else {
                        out0[i] as int
                    });
                    if offset <= i < offset + width {
                        let c = i - offset;
                        assert(out[i] == fixed::alpha_byte(
                            shade::cell_alpha(
                                shade::cover_sum(cover, 0, c + 1),
                                area[c] as int,
                            ),
                        ));
                    } else {
                        assert(out[i] == out1[i]);
                    }
                }
            }
            row = row + 1;
        }
        assert(stride * row == total);

        self.clear();
    }
}

/// The rows of an output lie within it.
proof fn lemma_row_in_output(stride: int, row: int, height: int)
    by (nonlinear_arith)
    requires
        0 <= stride,
        0 <= row < height,
    ensures
        0 <= stride * row,
        stride * row + stride == stride * (row + 1),
        stride * (row + 1) <= stride * height,
{
}

/// Row and column of an output index.
proof fn lemma_index_in_row(stride: int, row: int, i: int)
    requires
        0 < stride,
        stride * row + stride == stride * (row + 1),
    ensures
        stride * row <= i < stride * (row + 1) ==> i / stride == row && i % stride == i - stride
            * row,
{
    if stride * row <= i < stride * (row + 1) {
        let c = i - stride * row;
        assert(row * stride == stride * row) by (nonlinear_arith);
        vstd::arithmetic::div_mod::lemma_fundamental_div_mod_converse(i, stride, row, c);
    }
}

} // verus!
