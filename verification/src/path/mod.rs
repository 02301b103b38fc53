//! Paths: boundary walking and simplification.

pub mod paths;
pub mod simplify;
pub mod spline;
pub mod walker;

pub use paths::Path;
pub use paths::PathI32;
pub use simplify::Dir;
pub use simplify::PathSimplify;
pub use simplify::PathSimplifyMode;
pub use spline::cut_points;
pub use spline::Spline;
pub use walker::PathWalker;
pub use walker::SpiralWalker;
