//! Wireframe rasterizer: bounds-checked pixel writes into a row-major buffer of
//! packed colours, and the line, disc, square and outline primitives built on them.

pub mod frame;
pub mod geometry;
pub mod line;
pub mod marker;
pub mod report;
pub mod scene;
pub mod segment;
pub mod trace;

pub use frame::draw_pixel;
pub use geometry::GeometryDrawer;
pub use line::bresenham_line;
pub use marker::{draw_circle, draw_point, draw_square, Object};
pub use report::PixelOutOfBounds;
pub use segment::draw_line;
