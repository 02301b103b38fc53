//! Shapes with a place.

use vstd::prelude::*;

use crate::bound::Bound;
use crate::bound::BoundingRect;
use crate::image::BinaryImage;

verus! {

/// An artificial object that has a shape and a position in space.
#[derive(Debug)]
pub struct Artifact {
    /// The image of the shape.
    pub image: BinaryImage,
    /// The position in space.
    pub bound: BoundingRect,
}

impl Default for Artifact {
    fn default() -> (a: Self)
        ensures
            a.image.is_blank(0, 0),
            a.bound == BoundingRect::spec_zero(),
    {
        Artifact { image: BinaryImage::default(), bound: BoundingRect::default() }
    }
}

impl Artifact {
    pub fn new(rect: BoundingRect, image: BinaryImage) -> (a: Self)
        ensures
            a.bound == rect,
            a.image == image,
    {
        Self { bound: rect, image }
    }
}

impl Bound for Artifact {
    open spec fn spec_bound(&self) -> BoundingRect {
        self.bound
    }

    fn bound(&self) -> (r: BoundingRect) {
        self.bound
    }
}

} // verus!
