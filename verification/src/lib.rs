//! An analytic coverage rasterizer: filled outlines to 8-bit alpha coverage.
//!
//! [`Raster`] accumulates a path as edges in 24.8 fixed point and renders it
//! with the non-zero winding rule. [`scene`] describes the rendered image as a
//! function of the edges, [`outline`] the path that the drawing calls build,
//! and [`laws`] and [`balance`] hold the properties of both. [`trace`],
//! [`coverage`] and [`bezier`] relate the image to the points that were drawn.

pub mod balance;
pub mod bezier;
mod capacity;
pub mod coverage;
pub mod curve;
mod drawing;
pub mod edge;
pub mod fixed;
mod flatten;
pub mod laws;
pub mod outline;
pub mod ramp;
pub mod raster;
mod rows;
pub mod scene;
pub mod shade;
pub mod sum;
pub mod sweep;
pub mod trace;

pub use crate::curve::{Cubic, Quad};
pub use crate::edge::Edge;
pub use crate::fixed::{alpha_to_byte, clamp_i64_to_i32};
pub use crate::raster::Raster;
pub use crate::scene::Extents;
pub use crate::shade::sweep_row_to_alpha;
pub use crate::sweep::{cell_add, edge_sweep_row};
