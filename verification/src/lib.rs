//! Fractal terrain synthesis and contour extraction over a square grid.
//!
//! The engine generates a self-affine height field by midpoint displacement
//! (diamond-square), optionally rescales it into the unit range, classifies
//! every grid cell against per-level thresholds (marching squares), and links
//! the resulting boundary-crossing segments into renderable polylines.
//!
//! All heights and coordinates are fixed-point integers: a value `v`
//! represents the real number `v / SCALE`. This keeps the arithmetic exact,
//! which the segment stitching relies on (shared cell edges interpolate to
//! bit-identical crossing points).

pub mod contour;
pub mod field;
pub mod fixed;
pub mod gen;
pub mod math;
pub mod render;
pub mod sampler;
pub mod stitch;
pub mod topography;

pub use fixed::SCALE;
pub use field::HeightField;
pub use math::{Point, Segment};
pub use render::{clear, draw_line, draw_pixel};
pub use topography::{Topography, TopographyError};
