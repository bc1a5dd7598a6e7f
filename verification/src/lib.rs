//! A software rasterizer for vector paths, with an 8-bit coverage mask as its
//! result.
//!
//! A [`Path`] of lines and Bézier curves is flattened into line segments in
//! fixed-point coordinates. A [`Plotter`] fills the closed outline of a path
//! under a [`FillRule`], or strokes its segments with a round pen, by probing
//! each pixel at sixteen sample points. The coverage lands in a [`Mask`],
//! which owns a row-major buffer of `width * height` bytes; scan lines are
//! folded into it with a saturating per-byte addition, and a finished mask is
//! laid out as a binary portable gray map or encoded as a grayscale PNG.
//!
//! Coordinates are integers in units of 1/256 pixel. What the renderings
//! promise is proved beside the code: a polygon covers the same pixels
//! whichever way round it runs, covers in full the pixels inside all its edges
//! and none beyond a line that has the polygon behind it, and a path covers
//! nothing outside the box of its points.
pub mod arith;
pub mod convex;
pub mod curve;
pub mod edge;
pub mod encode;
pub mod mask;
pub mod outline;
pub mod path;
pub mod pgm;
pub mod plotter;
pub mod polygon;
pub mod raster;
pub mod stroke;
pub mod sweep;

pub use edge::Edge;
pub use edge::FillRule;
pub use edge::Point;
pub use mask::Mask;
pub use mask::MaskError;
pub use mask::MaskView;
pub use path::Path;
pub use path::PathOp;
pub use plotter::Plotter;
