//! Geometry for drawing smooth strokes: Catmull-Rom resampling of control points
//! and mitered triangulation of polylines, on fixed-point integer coordinates;
//! and the decisions of the window event loop that draws them.
pub mod arith;
pub mod geometry;
pub mod input;
pub mod scene;
pub mod spline;
pub mod stroke;
