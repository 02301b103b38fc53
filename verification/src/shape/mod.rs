//! Shapes: what can be said of the set pixels of a binary image.

pub mod geometry;
pub mod image_operations;
pub mod processor;
pub mod rasterizer;
pub mod skeleton;

pub use geometry::Shape;
pub use processor::AverageShape;
pub use rasterizer::bresenham;
pub use rasterizer::rasterize_triangle;
pub use rasterizer::walk_triangle;
pub use rasterizer::BresenhamIterator;
pub use rasterizer::TriangleRasterizer;
pub use skeleton::Skeleton;
