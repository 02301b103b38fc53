//! Raster-to-vector shape analysis: bounding rectangles, images, connected
//! components, boundary walking, path simplification and hierarchical
//! colour clustering, each function with a machine-checked contract.

pub mod artifact;
pub mod bits;
pub mod bound;
pub mod clusters;
pub mod color;
pub mod color_clusters;
pub mod color_stat;
pub mod disjoint_sets;
pub mod field;
pub mod grid;
pub mod image;
pub mod path;
pub mod point;
pub mod sampler;
pub mod sat;
pub mod shape;
pub mod sorting;
pub mod statistic;
pub mod text;
pub mod transform;

pub use artifact::Artifact;
pub use bound::Bound;
pub use bound::BoundStat;
pub use bound::BoundingRect;
pub use color::Color;
pub use color::ColorI32;
pub use color::ColorName;
pub use color::ColorSum;
pub use color::ColorType;
pub use color_stat::ColorStatBuilder;
pub use disjoint_sets::Forests;
pub use field::Field;
pub use image::BinaryImage;
pub use image::ColorImage;
pub use image::ColorImageIter;
pub use image::MonoImage;
pub use image::MonoImageItem;
pub use image::ScalerField;
pub use path::Dir;
pub use path::Path;
pub use path::PathI32;
pub use path::PathSimplify;
pub use path::PathSimplifyMode;
pub use path::PathWalker;
pub use path::SpiralWalker;
pub use path::Spline;
pub use point::NumberFormat;
pub use point::Point2;
pub use point::PointI32;
pub use point::PointU8;
pub use point::PointUsize;
pub use point::ToSvgString;
pub use sampler::Sampler;
pub use sat::SummedAreaTable;
pub use shape::bresenham;
pub use shape::rasterize_triangle;
pub use shape::walk_triangle;
pub use shape::BresenhamIterator;
pub use shape::AverageShape;
pub use shape::Shape;
pub use shape::Skeleton;
pub use shape::TriangleRasterizer;
pub use statistic::SampleStatBuilder;
pub use statistic::SimpleStatBuilder;
pub use transform::RectangularTransform;
pub use transform::Transform;
