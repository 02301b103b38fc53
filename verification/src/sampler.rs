//! Sampling and resizing of binary images.

use vstd::prelude::*;
use crate::bound::BoundingRect;
use crate::grid::raster_filter;
use crate::image::BinaryImage;
use crate::transform::{div_trunc, div_trunc_exec};

verus! {

/// For sampling and resizing binary images.
pub struct Sampler {
    pub image: BinaryImage,
}

/// The rectangle that is read: `crop`, or the whole image where `crop` is
/// empty.
pub open spec fn source_rect(image: &BinaryImage, crop: BoundingRect) -> (int, int, int, int) {
    if crop.spec_is_empty() {
        (0, 0, image.width as int, image.height as int)
    } else {
        (crop.left as int, crop.top as int, crop.right as int, crop.bottom as int)
    }
}

/// The pixel of the source that cell `(x, y)` of a square of side
/// `new_size` shows: the rectangle `(left, top, right, bottom)` is centred
/// in a square of its longer side, and that square is scaled to the new one.
pub open spec fn square_source(rect: (int, int, int, int), new_size: int, x: int, y: int) -> (
    int,
    int,
) {
    let w = rect.2 - rect.0;
    let h = rect.3 - rect.1;
    let size = if w >= h {
        w
    } else {
        h
    };
    (
        div_trunc(x * size, new_size) - (size - w) / 2 + rect.0,
        div_trunc(y * size, new_size) - (size - h) / 2 + rect.1,
    )
}

/// The pixel of the source rectangle that cell `(x, y)` of a rectangle
/// `dw` wide and `dh` high shows when the source is stretched over it.
pub open spec fn stretch_source(rect: (int, int, int, int), dw: int, dh: int, x: int, y: int) -> (
    int,
    int,
) {
    (
        div_trunc(x * (rect.2 - rect.0), dw) + rect.0,
        div_trunc(y * (rect.3 - rect.1), dh) + rect.1,
    )
}

/// What cell `(x, y)` of the destination holds after `src_rect` of `src`
/// was stretched over `dst_rect`: cells outside `dst_rect` keep `before`,
/// and so do cells that an overlay finds unset in the source.
pub open spec fn stretched(
    src: &BinaryImage,
    src_rect: BoundingRect,
    dst_rect: BoundingRect,
    overlay: bool,
    before: bool,
    x: int,
    y: int,
) -> bool {
    if dst_rect.left <= x < dst_rect.right && dst_rect.top <= y < dst_rect.bottom {
        let s = stretch_source(
            source_rect(src, src_rect),
            dst_rect.spec_width(),
            dst_rect.spec_height(),
            x - dst_rect.left,
            y - dst_rect.top,
        );
        let pixel = src.spec_get_safe(s.0, s.1);
        if !overlay || pixel {
            pixel
        } else {
            before
        }
    } else {
        before
    }
}

/// The number of set pixels of row `y` in the columns from `left` up to
/// `right`.
pub open spec fn row_count(image: &BinaryImage, y: int, left: int, right: int) -> nat
    decreases right - left,
{
    if right <= left {
        0
    } else {
        row_count(image, y, left, right - 1) + if image.spec_get(right - 1, y) {
            1nat
        } else {
            0nat
        }
    }
}

/// The number of set pixels in the columns from `left` up to `right` of the
/// rows from `top` up to `bottom`.
pub open spec fn region_count(
    image: &BinaryImage,
    left: int,
    top: int,
    right: int,
    bottom: int,
) -> nat
    decreases bottom - top,
{
    if bottom <= top {
        0
    } else {
        region_count(image, left, top, right, bottom - 1) + row_count(
            image,
            bottom - 1,
            left,
            right,
        )
    }
}

proof fn lemma_row_count_bound(image: &BinaryImage, y: int, left: int, right: int)
    requires
        left <= right,
    ensures
        row_count(image, y, left, right) <= right - left,
    decreases right - left,
{
    if right > left {
        lemma_row_count_bound(image, y, left, right - 1);
    }
}

proof fn lemma_region_count_bound(image: &BinaryImage, left: int, top: int, right: int, bottom: int)
    requires
        left <= right,
        top <= bottom,
    ensures
        region_count(image, left, top, right, bottom) <= (bottom - top) * (right - left),
    decreases bottom - top,
{
    if bottom > top {
        lemma_region_count_bound(image, left, top, right, bottom - 1);
        lemma_row_count_bound(image, bottom - 1, left, right);
        assert((bottom - top) * (right - left) == (bottom - 1 - top) * (right - left) + (right
            - left)) by (nonlinear_arith);
    }
}

/// The pixel at `(x, y)`, unset outside the image.
fn pixel_or_blank(image: &BinaryImage, x: i128, y: i128) -> (v: bool)
    requires
        image.wf(),
    ensures
        v == image.spec_get_safe(x as int, y as int),
{
    if x >= 0 && x < image.width as i128 && y >= 0 && y < image.height as i128 {
        proof {
            image.lemma_in_store(x as int, y as int);
        }
        image.get_pixel(x as usize, y as usize)
    } else {
        false
    }
}

impl Sampler {
    /// A sampler on the image made square by its longer side.
    pub fn new(image: &BinaryImage) -> (s: Sampler)
        requires
            image.wf(),
            image.width <= i32::MAX,
            image.height <= i32::MAX,
            image.width * image.width <= usize::MAX,
            image.height * image.height <= usize::MAX,
        ensures
            s.image.wf(),
            s.image.width == s.image.height,
            s.image.width == (if image.width >= image.height {
                image.width
            } else {
                image.height
            }),
            forall|x: int, y: int|
                s.image.in_bounds(x, y) ==> #[trigger] s.image.spec_get(x, y) == ({
                    let p = square_source(
                        source_rect(image, BoundingRect::spec_zero()),
                        s.image.width as int,
                        x,
                        y,
                    );
                    image.spec_get_safe(p.0, p.1)
                }),
    {
        let size = if image.width >= image.height {
            image.width
        } else {
            image.height
        };
        Self::new_with_size(image, size)
    }

    /// A sampler on the image resized to a square of side `sampler_size`.
    pub fn new_with_size(image: &BinaryImage, sampler_size: usize) -> (s: Sampler)
        requires
            image.wf(),
            image.width <= i32::MAX,
            image.height <= i32::MAX,
            sampler_size <= i32::MAX,
            sampler_size * sampler_size <= usize::MAX,
        ensures
            s.image.wf(),
            s.image.width == sampler_size,
            s.image.height == sampler_size,
            forall|x: int, y: int|
                s.image.in_bounds(x, y) ==> #[trigger] s.image.spec_get(x, y) == ({
                    let p = square_source(
                        source_rect(image, BoundingRect::spec_zero()),
                        sampler_size as int,
                        x,
                        y,
                    );
                    image.spec_get_safe(p.0, p.1)
                }),
    {
        Self::new_with_size_crop(image, sampler_size, BoundingRect::default())
    }

    /// A sampler on the square part `crop` of the image (on all of it where
    /// `crop` is empty) resized to a square of side `sampler_size`.
    pub fn new_with_size_crop(image: &BinaryImage, sampler_size: usize, crop: BoundingRect) -> (s:
        Sampler)
        requires
            image.wf(),
            image.width <= i32::MAX,
            image.height <= i32::MAX,
            sampler_size <= i32::MAX,
            sampler_size * sampler_size <= usize::MAX,
            crop.spec_width() == crop.spec_height(),
        ensures
            s.image.wf(),
            s.image.width == sampler_size,
            s.image.height == sampler_size,
            forall|x: int, y: int|
                s.image.in_bounds(x, y) ==> #[trigger] s.image.spec_get(x, y) == ({
                    let p = square_source(source_rect(image, crop), sampler_size as int, x, y);
                    image.spec_get_safe(p.0, p.1)
                }),
    {
        if crop.is_empty() && image.width == image.height && image.width == sampler_size {
            let copy = image.duplicate();
            proof {
                assert forall|x: int, y: int| copy.in_bounds(x, y) implies #[trigger] copy.spec_get(
                    x,
                    y,
                ) == ({
                    let p = square_source(source_rect(image, crop), sampler_size as int, x, y);
                    image.spec_get_safe(p.0, p.1)
                }) by {
                    lemma_same_size(x, sampler_size as int);
                    lemma_same_size(y, sampler_size as int);
                }
            }
            Sampler { image: copy }
        } else {
            Sampler { image: Self::resample_square_image(image, crop, sampler_size) }
        }
    }

    /// Resizes an image of any size into a square image while keeping the
    /// aspect ratio of the content. The area that the content does not
    /// reach stays unset.
    pub fn resample_square_image(image: &BinaryImage, crop: BoundingRect, new_size: usize) -> (r:
        BinaryImage)
        requires
            image.wf(),
            image.width <= i32::MAX,
            image.height <= i32::MAX,
            new_size <= i32::MAX,
            new_size * new_size <= usize::MAX,
        ensures
            r.wf(),
            r.width == new_size,
            r.height == new_size,
            forall|x: int, y: int|
                r.in_bounds(x, y) ==> #[trigger] r.spec_get(x, y) == ({
                    let p = square_source(source_rect(image, crop), new_size as int, x, y);
                    image.spec_get_safe(p.0, p.1)
                }),
    {
        let mut new_image = BinaryImage::new_w_h(new_size, new_size);
        let (left, top, right, bottom): (i128, i128, i128, i128) = if !crop.is_empty() {
            (crop.left as i128, crop.top as i128, crop.right as i128, crop.bottom as i128)
        } else {
            (0, 0, image.width as i128, image.height as i128)
        };
        let ghost rect = source_rect(image, crop);
        let w: i128 = right - left;
        let h: i128 = bottom - top;
        let size: i128 = if w >= h {
            w
        } else {
            h
        };
        let ox: i128 = (size - w) / 2;
        let oy: i128 = (size - h) / 2;
        let n: i128 = new_size as i128;
        let mut y: usize = 0;
        while y < new_size
            invariant
                image.wf(),
                new_image.wf(),
                new_image.width == new_size,
                new_image.height == new_size,
                new_size <= i32::MAX,
                n == new_size,
                y <= new_size,
                rect == (left as int, top as int, right as int, bottom as int),
                -0x1_0000_0000 <= left <= 0x1_0000_0000,
                -0x1_0000_0000 <= top <= 0x1_0000_0000,
                -0x1_0000_0000 <= right <= 0x1_0000_0000,
                -0x1_0000_0000 <= bottom <= 0x1_0000_0000,
                w == right - left,
                h == bottom - top,
                size == (if w >= h {
                    w
                } else {
                    h
                }),
                ox == (size - w) / 2,
                oy == (size - h) / 2,
                forall|x2: int, y2: int|
                    0 <= x2 < new_size && 0 <= y2 < y ==> #[trigger] new_image.spec_get(x2, y2)
                        == ({
                        let p = square_source(rect, new_size as int, x2, y2);
                        image.spec_get_safe(p.0, p.1)
                    }),
            decreases new_size - y,
        {
            let mut x: usize = 0;
            while x < new_size
                invariant
                    image.wf(),
                    new_image.wf(),
                    new_image.width == new_size,
                    new_image.height == new_size,
                    new_size <= i32::MAX,
                    n == new_size,
                    y < new_size,
                    x <= new_size,
                    rect == (left as int, top as int, right as int, bottom as int),
                    -0x1_0000_0000 <= left <= 0x1_0000_0000,
                    -0x1_0000_0000 <= top <= 0x1_0000_0000,
                    -0x1_0000_0000 <= right <= 0x1_0000_0000,
                    -0x1_0000_0000 <= bottom <= 0x1_0000_0000,
                    w == right - left,
                    h == bottom - top,
                    size == (if w >= h {
                        w
                    } else {
                        h
                    }),
                    ox == (size - w) / 2,
                    oy == (size - h) / 2,
                    forall|x2: int, y2: int|
                        0 <= x2 < new_size && (0 <= y2 < y || (y2 == y && x2 < x))
                            ==> #[trigger] new_image.spec_get(x2, y2) == ({
                            let p = square_source(rect, new_size as int, x2, y2);
                            image.spec_get_safe(p.0, p.1)
                        }),
                decreases new_size - x,
            {
                assert(-0x2_0000_0000 <= size <= 0x2_0000_0000);
                assert(-0x1_0000_0000_0000_0000 <= x * size <= 0x1_0000_0000_0000_0000)
                    by (nonlinear_arith)
                    requires
                        0 <= x <= 0x7fff_ffff,
                        -0x2_0000_0000 <= size <= 0x2_0000_0000,
                ;
                assert(-0x1_0000_0000_0000_0000 <= y * size <= 0x1_0000_0000_0000_0000)
                    by (nonlinear_arith)
                    requires
                        0 <= y <= 0x7fff_ffff,
                        -0x2_0000_0000 <= size <= 0x2_0000_0000,
                ;
                let qx = div_trunc_exec((x as i128) * size, n);
                let qy = div_trunc_exec((y as i128) * size, n);
                proof {
                    lemma_trunc_bound(x * size, n as int);
                    lemma_trunc_bound(y * size, n as int);
                }
                let xx: i128 = qx - ox + left;
                let yy: i128 = qy - oy + top;
                let v = pixel_or_blank(image, xx, yy);
                proof {
                    new_image.lemma_in_store(x as int, y as int);
                }
                new_image.set_pixel(x, y, v);
                x += 1;
            }
            y += 1;
        }
        new_image
    }

    /// The image stretched to `new_width` by `new_height`.
    pub fn resample_image(image: &BinaryImage, new_width: usize, new_height: usize) -> (r:
        BinaryImage)
        requires
            image.wf(),
            image.width <= i32::MAX,
            image.height <= i32::MAX,
            new_width <= i32::MAX,
            new_height <= i32::MAX,
            new_width * new_height <= usize::MAX,
        ensures
            r.wf(),
            r.width == new_width,
            r.height == new_height,
            forall|x: int, y: int|
                r.in_bounds(x, y) ==> #[trigger] r.spec_get(x, y) == ({
                    let p = stretch_source(
                        source_rect(image, BoundingRect::spec_zero()),
                        new_width as int,
                        new_height as int,
                        x,
                        y,
                    );
                    image.spec_get_safe(p.0, p.1)
                }),
    {
        Self::resample_image_with_crop(image, BoundingRect::default(), new_width, new_height)
    }

    /// The part `crop` of the image (all of it where `crop` is empty)
    /// stretched to `new_width` by `new_height`.
    pub fn resample_image_with_crop(
        image: &BinaryImage,
        crop: BoundingRect,
        new_width: usize,
        new_height: usize,
    ) -> (r: BinaryImage)
        requires
            image.wf(),
            image.width <= i32::MAX,
            image.height <= i32::MAX,
            new_width <= i32::MAX,
            new_height <= i32::MAX,
            new_width * new_height <= usize::MAX,
        ensures
            r.wf(),
            r.width == new_width,
            r.height == new_height,
            forall|x: int, y: int|
                r.in_bounds(x, y) ==> #[trigger] r.spec_get(x, y) == ({
                    let p = stretch_source(
                        source_rect(image, crop),
                        new_width as int,
                        new_height as int,
                        x,
                        y,
                    );
                    image.spec_get_safe(p.0, p.1)
                }),
    {
        let mut new_image = BinaryImage::new_w_h(new_width, new_height);
        let frame = BoundingRect::new_x_y_w_h(0, 0, new_width as i32, new_height as i32);
        Self::resample_image_with_crop_to_image(image, crop, &mut new_image, frame);
        new_image
    }

    /// Stretches the part `src_rect` of `src` over the part `dst_rect` of
    /// `dst`.
    pub fn resample_image_with_crop_to_image(
        src: &BinaryImage,
        src_rect: BoundingRect,
        dst: &mut BinaryImage,
        dst_rect: BoundingRect,
    )
        requires
            src.wf(),
            old(dst).wf(),
            src.width <= i32::MAX,
            src.height <= i32::MAX,
            dst_rect.left < dst_rect.right && dst_rect.top < dst_rect.bottom ==> 0 <= dst_rect.left
                && dst_rect.right <= old(dst).width && 0 <= dst_rect.top && dst_rect.bottom <= old(
                dst,
            ).height,
        ensures
            final(dst).wf(),
            final(dst).width == old(dst).width,
            final(dst).height == old(dst).height,
            forall|x: int, y: int|
                old(dst).in_bounds(x, y) ==> #[trigger] final(dst).spec_get(x, y) == stretched(
                    src,
                    src_rect,
                    dst_rect,
                    false,
                    old(dst).spec_get(x, y),
                    x,
                    y,
                ),
    {
        Self::resample_image_with_crop_to_image_overlay(src, src_rect, dst, dst_rect, false);
    }

    /// Stretches the part `src_rect` of `src` over the part `dst_rect` of
    /// `dst`. With `overlay`, only the set pixels of the source are
    /// written.
    pub fn resample_image_with_crop_to_image_overlay(
        src: &BinaryImage,
        src_rect: BoundingRect,
        dst: &mut BinaryImage,
        dst_rect: BoundingRect,
        overlay: bool,
    )
        requires
            src.wf(),
            old(dst).wf(),
            src.width <= i32::MAX,
            src.height <= i32::MAX,
            dst_rect.left < dst_rect.right && dst_rect.top < dst_rect.bottom ==> 0 <= dst_rect.left
                && dst_rect.right <= old(dst).width && 0 <= dst_rect.top && dst_rect.bottom <= old(
                dst,
            ).height,
        ensures
            final(dst).wf(),
            final(dst).width == old(dst).width,
            final(dst).height == old(dst).height,
            forall|x: int, y: int|
                old(dst).in_bounds(x, y) ==> #[trigger] final(dst).spec_get(x, y) == stretched(
                    src,
                    src_rect,
                    dst_rect,
                    overlay,
                    old(dst).spec_get(x, y),
                    x,
                    y,
                ),
    {
        let (left, top, right, bottom): (i128, i128, i128, i128) = if !src_rect.is_empty() {
            (
                src_rect.left as i128,
                src_rect.top as i128,
                src_rect.right as i128,
                src_rect.bottom as i128,
            )
        } else {
            (0, 0, src.width as i128, src.height as i128)
        };
        let ghost rect = source_rect(src, src_rect);
        let ghost before = *dst;
        if dst_rect.left >= dst_rect.right || dst_rect.top >= dst_rect.bottom {
            return ;
        }
        let sw: i128 = right - left;
        let sh: i128 = bottom - top;
        let dw: i128 = dst_rect.right as i128 - dst_rect.left as i128;
        let dh: i128 = dst_rect.bottom as i128 - dst_rect.top as i128;
        let mut y: i128 = 0;
        while y < dh
            invariant
                src.wf(),
                dst.wf(),
                before.wf(),
                dst.width == before.width,
                dst.height == before.height,
                0 <= dst_rect.left < dst_rect.right <= dst.width,
                0 <= dst_rect.top < dst_rect.bottom <= dst.height,
                rect == source_rect(src, src_rect),
                rect == (left as int, top as int, right as int, bottom as int),
                -0x1_0000_0000 <= left <= 0x1_0000_0000,
                -0x1_0000_0000 <= top <= 0x1_0000_0000,
                -0x1_0000_0000 <= right <= 0x1_0000_0000,
                -0x1_0000_0000 <= bottom <= 0x1_0000_0000,
                sw == right - left,
                sh == bottom - top,
                dw == dst_rect.spec_width(),
                dh == dst_rect.spec_height(),
                0 <= y <= dh,
                forall|x2: int, y2: int|
                    before.in_bounds(x2, y2) ==> #[trigger] dst.spec_get(x2, y2) == (if y2
                        - dst_rect.top < y {
                        stretched(src, src_rect, dst_rect, overlay, before.spec_get(x2, y2), x2, y2)
                    } else {
                        before.spec_get(x2, y2)
                    }),
            decreases dh - y,
        {
            let mut x: i128 = 0;
            while x < dw
                invariant
                    src.wf(),
                    dst.wf(),
                    before.wf(),
                    dst.width == before.width,
                    dst.height == before.height,
                    0 <= dst_rect.left < dst_rect.right <= dst.width,
                    0 <= dst_rect.top < dst_rect.bottom <= dst.height,
                    rect == source_rect(src, src_rect),
                    rect == (left as int, top as int, right as int, bottom as int),
                    -0x1_0000_0000 <= left <= 0x1_0000_0000,
                    -0x1_0000_0000 <= top <= 0x1_0000_0000,
                    -0x1_0000_0000 <= right <= 0x1_0000_0000,
                    -0x1_0000_0000 <= bottom <= 0x1_0000_0000,
                    sw == right - left,
                    sh == bottom - top,
                    dw == dst_rect.spec_width(),
                    dh == dst_rect.spec_height(),
                    0 <= y < dh,
                    0 <= x <= dw,
                    forall|x2: int, y2: int|
                        before.in_bounds(x2, y2) ==> #[trigger] dst.spec_get(x2, y2) == (if y2
                            - dst_rect.top < y || (y2 - dst_rect.top == y && x2 - dst_rect.left
                            < x) {
                            stretched(
                                src,
                                src_rect,
                                dst_rect,
                                overlay,
                                before.spec_get(x2, y2),
                                x2,
                                y2,
                            )
                        } else {
                            before.spec_get(x2, y2)
                        }),
                decreases dw - x,
            {
                assert(-0x2_0000_0000_0000_0000 <= x * sw <= 0x2_0000_0000_0000_0000)
                    by (nonlinear_arith)
                    requires
                        0 <= x <= 0x1_0000_0000,
                        -0x2_0000_0000 <= sw <= 0x2_0000_0000,
                ;
                assert(-0x2_0000_0000_0000_0000 <= y * sh <= 0x2_0000_0000_0000_0000)
                    by (nonlinear_arith)
                    requires
                        0 <= y <= 0x1_0000_0000,
                        -0x2_0000_0000 <= sh <= 0x2_0000_0000,
                ;
                let qx = div_trunc_exec(x * sw, dw);
                let qy = div_trunc_exec(y * sh, dh);
                proof {
                    lemma_trunc_bound(x * sw, dw as int);
                    lemma_trunc_bound(y * sh, dh as int);
                }
                let pixel = pixel_or_blank(src, qx + left, qy + top);
                if !overlay || pixel {
                    let px: usize = (dst_rect.left as i128 + x) as usize;
                    let py: usize = (dst_rect.top as i128 + y) as usize;
                    proof {
                        dst.lemma_in_store(px as int, py as int);
                    }
                    dst.set_pixel(px, py, pixel);
                }
                x += 1;
            }
            y += 1;
        }
    }

    /// The side of the square.
    pub fn size(&self) -> (n: usize)
        ensures
            n == self.image.width,
    {
        self.image.width
    }

    /// The tight bounding rect of the set pixels.
    pub fn bounding_rect(&self) -> (rect: BoundingRect)
        requires
            self.image.wf(),
            self.image.width <= i32::MAX,
            self.image.height <= i32::MAX,
        ensures
            rect.is_aabb_of(
                raster_filter(
                    self.image.width as int,
                    self.image.width * self.image.height,
                    |x: int, y: int| self.image.spec_get(x, y),
                ),
            ),
            rect.ordered(),
    {
        self.image.bounding_rect()
    }

    /// Counts the set pixels in the columns from `left` up to `right` of
    /// the rows from `top` up to `bottom`.
    pub fn sample(&self, left: usize, top: usize, right: usize, bottom: usize) -> (count: usize)
        requires
            self.image.wf(),
            left < right && top < bottom ==> right <= self.image.width && bottom
                <= self.image.height,
        ensures
            count == region_count(&self.image, left as int, top as int, right as int, bottom as int),
    {
        if left >= right || top >= bottom {
            proof {
                lemma_region_blank(&self.image, left as int, top as int, right as int, bottom as int);
            }
            return 0;
        }
        let n = crate::bits::bitvec_len(&self.image.pixels);
        assert(self.image.width * self.image.height <= usize::MAX);
        let mut count: usize = 0;
        let mut y: usize = top;
        while y < bottom
            invariant
                self.image.wf(),
                left < right <= self.image.width,
                top <= y <= bottom <= self.image.height,
                self.image.width * self.image.height <= usize::MAX,
                count == region_count(&self.image, left as int, top as int, right as int, y as int),
            decreases bottom - y,
        {
            let mut x: usize = left;
            let ghost start = count;
            while x < right
                invariant
                    self.image.wf(),
                    left <= x <= right <= self.image.width,
                    top <= y < bottom <= self.image.height,
                    self.image.width * self.image.height <= usize::MAX,
                    start == region_count(
                        &self.image,
                        left as int,
                        top as int,
                        right as int,
                        y as int,
                    ),
                    count == start + row_count(&self.image, y as int, left as int, x as int),
                decreases right - x,
            {
                proof {
                    self.image.lemma_in_store(x as int, y as int);
                    lemma_region_count_bound(
                        &self.image,
                        left as int,
                        top as int,
                        right as int,
                        y as int,
                    );
                    lemma_row_count_bound(&self.image, y as int, left as int, x as int);
                    assert((y - top) * (right - left) + (x - left) < self.image.width
                        * self.image.height) by (nonlinear_arith)
                        requires
                            0 <= left <= x < right <= self.image.width,
                            0 <= top <= y < self.image.height,
                    ;
                }
                if self.image.get_pixel(x, y) {
                    count += 1;
                }
                x += 1;
            }
            y += 1;
        }
        count
    }
}

/// A quotient rounded towards zero is no further from zero than the
/// numerator.
proof fn lemma_trunc_bound(n: int, d: int)
    requires
        d > 0,
    ensures
        n >= 0 ==> 0 <= div_trunc(n, d) <= n,
        n <= 0 ==> n <= div_trunc(n, d) <= 0,
{
    if n >= 0 {
        vstd::arithmetic::div_mod::lemma_div_pos_is_pos(n, d);
        vstd::arithmetic::div_mod::lemma_div_is_ordered_by_denominator(n, 1, d);
    } else {
        vstd::arithmetic::div_mod::lemma_div_pos_is_pos(-n, d);
        vstd::arithmetic::div_mod::lemma_div_is_ordered_by_denominator(-n, 1, d);
    }
}

/// Scaling a square to its own size moves nothing.
proof fn lemma_same_size(x: int, n: int)
    requires
        0 <= x,
        0 < n,
    ensures
        div_trunc(x * n, n) == x,
{
    vstd::arithmetic::div_mod::lemma_div_multiples_vanish(x, n);
    assert(x * n == n * x) by (nonlinear_arith);
    assert(x * n >= 0) by (nonlinear_arith)
        requires
            0 <= x,
            0 < n,
    ;
}

/// A region without rows holds nothing.
proof fn lemma_region_blank(image: &BinaryImage, left: int, top: int, right: int, bottom: int)
    requires
        left >= right || top >= bottom,
    ensures
        region_count(image, left, top, right, bottom) == 0,
    decreases bottom - top,
{
    if bottom > top {
        lemma_region_blank(image, left, top, right, bottom - 1);
    }
}

/// How often `n` can be divided by four before it falls below four.
pub open spec fn spec_pow_of_four(n: usize) -> nat
    decreases n,
{
    if n > 3 {
        1 + spec_pow_of_four(n / 4)
    } else {
        0
    }
}

/// Four to the power of `p`.
pub open spec fn spec_four_to(p: nat) -> nat
    decreases p,
{
    if p == 0 {
        1
    } else {
        4 * spec_four_to((p - 1) as nat)
    }
}

/// Four to a greater power is no less.
proof fn lemma_four_to_grows(p: nat, q: nat)
    requires
        p <= q,
    ensures
        spec_four_to(p) <= spec_four_to(q),
        spec_four_to(p) >= 1,
    decreases q,
{
    if p < q {
        lemma_four_to_grows(p, (q - 1) as nat);
    } else if p > 0 {
        lemma_four_to_grows((p - 1) as nat, (p - 1) as nat);
    }
}

/// Four to the power of 32 is more than a word of 64 bits holds.
proof fn lemma_four_to_32()
    ensures
        spec_four_to(32) == 0x1_0000_0000_0000_0000,
        spec_four_to(31) == 0x4000_0000_0000_0000,
{
    assert(spec_four_to(0) == 1);
    assert(spec_four_to(1) == 4);
    assert(spec_four_to(2) == 16);
    assert(spec_four_to(3) == 64);
    assert(spec_four_to(4) == 256);
    assert(spec_four_to(5) == 1024);
    assert(spec_four_to(6) == 4096);
    assert(spec_four_to(7) == 16384);
    assert(spec_four_to(8) == 65536);
    assert(spec_four_to(9) == 262144);
    assert(spec_four_to(10) == 1048576);
    assert(spec_four_to(11) == 4194304);
    assert(spec_four_to(12) == 16777216);
    assert(spec_four_to(13) == 67108864);
    assert(spec_four_to(14) == 268435456);
    assert(spec_four_to(15) == 1073741824);
    assert(spec_four_to(16) == 4294967296);
    assert(spec_four_to(17) == 17179869184);
    assert(spec_four_to(18) == 68719476736);
    assert(spec_four_to(19) == 274877906944);
    assert(spec_four_to(20) == 1099511627776);
    assert(spec_four_to(21) == 4398046511104);
    assert(spec_four_to(22) == 17592186044416);
    assert(spec_four_to(23) == 70368744177664);
    assert(spec_four_to(24) == 281474976710656);
    assert(spec_four_to(25) == 1125899906842624);
    assert(spec_four_to(26) == 4503599627370496);
    assert(spec_four_to(27) == 18014398509481984);
    assert(spec_four_to(28) == 72057594037927936);
    assert(spec_four_to(29) == 288230376151711744);
    assert(spec_four_to(30) == 1152921504606846976);
    assert(spec_four_to(31) == 4611686018427387904);
    assert(spec_four_to(32) == 18446744073709551616);
}

/// The greatest power of four that is no more than `n` is four to the
/// power of this; 0 for a number below four.
pub fn pow_of_four(n: usize) -> (p: usize)
    ensures
        p == spec_pow_of_four(n),
        p <= 31,
{
    let mut n = n;
    let ghost start = n;
    let mut pow_of_4: usize = 0;
    assert(spec_four_to(0) * n == n) by (nonlinear_arith)
        requires
            spec_four_to(0) == 1,
    ;
    while n > 3
        invariant
            spec_pow_of_four(start) == pow_of_4 + spec_pow_of_four(n),
            pow_of_4 <= 31,
            spec_four_to(pow_of_4 as nat) * n <= start,
        decreases n,
    {
        assert(n >> 2usize == n / 4) by (bit_vector);
        proof {
            let f = spec_four_to(pow_of_4 as nat);
            lemma_four_to_grows(pow_of_4 as nat, pow_of_4 as nat);
            assert(spec_four_to((pow_of_4 + 1) as nat) == 4 * f);
            assert(4 * f * (n / 4) <= f * n) by (nonlinear_arith)
                requires
                    f >= 1,
                    n >= 0,
                    4 * (n / 4) <= n,
            ;
            assert(4 * f <= f * n) by (nonlinear_arith)
                requires
                    f >= 1,
                    n > 3,
            ;
            lemma_four_to_32();
            if pow_of_4 + 1 >= 32 {
                lemma_four_to_grows(32, (pow_of_4 + 1) as nat);
            }
        }
        n >>= 2;
        pow_of_4 += 1;
    }
    pow_of_4
}

/// Is `n` a power of four?
pub fn is_pow_of_four(n: usize) -> (b: bool)
    ensures
        b == (spec_four_to(spec_pow_of_four(n)) == n),
{
    let p = pow_of_four(n);
    let mut v: u64 = 1;
    let mut i: usize = 0;
    while i < p
        invariant
            i <= p <= 31,
            v == spec_four_to(i as nat),
        decreases p - i,
    {
        proof {
            lemma_four_to_grows((i + 1) as nat, 31);
            lemma_four_to_32();
        }
        v = v * 4;
        i += 1;
    }
    v == n as u64
}

} // verus!
