# hb_raster

An analytic coverage rasterizer: it turns filled outlines into 8-bit alpha
coverage under the non-zero winding rule. The library is written in Verus, and
every function in it is proved against its contract.

A path is accumulated as edges in 24.8 fixed point. Rendering walks the edges
row by row, adds to each pixel cell the area and the height that an edge cuts
off, and turns the two sums into a byte.

- `src/raster.rs`: `Raster`, the public interface.
- `src/outline.rs`: the model of a path under construction.
- `src/scene.rs`: the image of a set of edges, and when it can be computed.
- `src/edge.rs`, `src/sweep.rs`, `src/shade.rs`: one edge in one pixel row, its
  accumulation, and the conversion to bytes.
- `src/curve.rs`, `src/flatten.rs`: flattening of Bézier curves.
- `src/rows.rs`, `src/drawing.rs`: the scanline loop's active edges.
- `src/capacity.rs`: the exact overflow test behind `Raster::can_render`.
- `src/laws.rs`, `src/balance.rs`: properties of the rasterizer as a whole.
- `app/`: a front end that takes `f32` pixel coordinates, and a benchmark.

Curves are generic in their coordinate type. The caller passes the operations
on it: midpoint, flatness test, and conversion to sub-pixel units.
