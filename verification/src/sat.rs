//! Summed-area tables.

use vstd::prelude::*;

use crate::grid::cell_index;
use crate::grid::lemma_cell_index_bound;
use crate::image::ColorImage;
use crate::point::PointI32;

verus! {

/// A table to compute sums of pixel values over regions of an image.
pub struct SummedAreaTable {
    pub sums: Vec<u32>,
    pub width: usize,
    pub height: usize,
}

/// The value of a pixel: the mean of its red, green and blue, rounded down.
pub open spec fn pixel_value(image: &ColorImage, x: int, y: int) -> int {
    (image.spec_get(x, y).r + image.spec_get(x, y).g + image.spec_get(x, y).b) / 3
}

/// The sum of the values of the pixels of row `y` up to and with column `x`.
pub open spec fn row_sum(image: &ColorImage, x: int, y: int) -> int
    decreases x + 1,
{
    if x < 0 {
        0
    } else {
        row_sum(image, x - 1, y) + pixel_value(image, x, y)
    }
}

/// The sum of the values of the pixels in the block from the top left
/// corner of the image to `(x, y)`, both with.
pub open spec fn block_sum(image: &ColorImage, x: int, y: int) -> int
    decreases y + 1,
{
    if y < 0 {
        0
    } else {
        block_sum(image, x, y - 1) + row_sum(image, x, y)
    }
}

/// A block without columns is empty.
pub proof fn lemma_block_sum_empty(image: &ColorImage, y: int)
    ensures
        block_sum(image, -1, y) == 0,
    decreases y + 1,
{
    if y >= 0 {
        lemma_block_sum_empty(image, y - 1);
    }
}

/// A block is at most 255 for each of its pixels, and not negative.
pub proof fn lemma_block_sum_bound(image: &ColorImage, x: int, y: int)
    requires
        -1 <= x,
        -1 <= y,
    ensures
        0 <= block_sum(image, x, y) <= 255 * ((x + 1) * (y + 1)),
        0 <= row_sum(image, x, y) <= 255 * (x + 1),
    decreases y + 1, x + 1,
{
    if x >= 0 {
        lemma_block_sum_bound(image, x - 1, y);
    }
    if y >= 0 {
        lemma_block_sum_bound(image, x, y - 1);
        assert(255 * ((x + 1) * y) + 255 * (x + 1) == 255 * ((x + 1) * (y + 1)))
            by (nonlinear_arith);
    } else {
        assert((x + 1) * (y + 1) == 0) by (nonlinear_arith)
            requires
                y == -1,
        ;
    }
}

/// The step by which the table is filled.
pub proof fn lemma_block_sum_step(image: &ColorImage, x: int, y: int)
    requires
        0 <= x,
        0 <= y,
    ensures
        block_sum(image, x, y) == block_sum(image, x, y - 1) + block_sum(image, x - 1, y)
            + pixel_value(image, x, y) - block_sum(image, x - 1, y - 1),
{
}

impl SummedAreaTable {
    /// The table has an entry for each pixel.
    pub open spec fn wf(&self) -> bool {
        self.sums@.len() == self.width * self.height
    }

    /// The entry for `(x, y)`; 0 outside the table.
    pub open spec fn spec_entry(&self, x: int, y: int) -> int {
        if 0 <= x < self.width && 0 <= y < self.height {
            self.sums@[cell_index(x, y, self.width as int)] as int
        } else {
            0
        }
    }

    /// The table is the summed-area table of `image`: each entry is the
    /// sum of the values of the pixels above and left of it, with itself.
    pub open spec fn is_table_of(&self, image: &ColorImage) -> bool {
        &&& self.wf()
        &&& self.width == image.width
        &&& self.height == image.height
        &&& forall|x: int, y: int|
            0 <= x < self.width && 0 <= y < self.height ==> #[trigger] self.sums@[cell_index(
                x,
                y,
                self.width as int,
            )] == block_sum(image, x, y)
    }

    /// The value that the four entries around a region give for it.
    pub open spec fn spec_region(&self, top_left: PointI32, bot_right: PointI32) -> int {
        self.spec_entry(bot_right.x as int, bot_right.y as int) + self.spec_entry(
            top_left.x - 1,
            top_left.y - 1,
        ) - self.spec_entry(top_left.x - 1, bot_right.y as int) - self.spec_entry(
            bot_right.x as int,
            top_left.y - 1,
        )
    }

    /// Creates the table of `image` in one pass through its pixels.
    pub fn from_color_image(image: &ColorImage) -> (table: Self)
        requires
            image.wf(),
            image.width <= i32::MAX,
            image.height <= i32::MAX,
            255 * (image.width * image.height) <= u32::MAX,
        ensures
            table.is_table_of(image),
    {
        let (width, height) = (image.width, image.height);
        let n = image.pixels.len();
        let size: usize = width * height;
        let mut sums: Vec<u32> = Vec::new();
        let mut i: usize = 0;
        while i < size
            invariant
                i <= size,
                sums@.len() == i,
            decreases size - i,
        {
            sums.push(0);
            i += 1;
        }
        let ghost w = width as int;
        let mut y: usize = 0;
        while y < height
            invariant
                y <= height,
                image.wf(),
                width == image.width,
                height == image.height,
                w == width,
                255 * (width * height) <= u32::MAX,
                sums@.len() == width * height,
                forall|x2: int, y2: int|
                    0 <= x2 < width && 0 <= y2 < y ==> #[trigger] sums@[cell_index(x2, y2, w)]
                        == block_sum(image, x2, y2),
            decreases height - y,
        {
            let mut x: usize = 0;
            while x < width
                invariant
                    x <= width,
                    y < height,
                    image.wf(),
                    width == image.width,
                    height == image.height,
                    w == width,
                    255 * (width * height) <= u32::MAX,
                    sums@.len() == width * height,
                    forall|x2: int, y2: int|
                        0 <= x2 < width && (0 <= y2 < y || (y2 == y && x2 < x))
                            ==> #[trigger] sums@[cell_index(x2, y2, w)] == block_sum(image, x2, y2),
                decreases width - x,
            {
                proof {
                    lemma_cell_index_bound(x as int, y as int, w, height as int);
                    image.lemma_in_store(x as int, y as int);
                    lemma_block_sum_step(image, x as int, y as int);
                    lemma_block_sum_empty(image, y as int);
                    lemma_block_sum_empty(image, y - 1);
                    lemma_block_sum_bound(image, x as int, y as int);
                    lemma_block_sum_bound(image, x as int, y - 1);
                    lemma_block_sum_bound(image, x - 1, y as int);
                    lemma_block_sum_bound(image, x - 1, y - 1);
                    assert((x + 1) * (y + 1) <= width * height) by (nonlinear_arith)
                        requires
                            0 <= x < width,
                            0 <= y < height,
                    ;
                    assert((x + 1) * y <= width * height) by (nonlinear_arith)
                        requires
                            0 <= x < width,
                            0 <= y < height,
                    ;
                    assert(x * (y + 1) <= width * height) by (nonlinear_arith)
                        requires
                            0 <= x < width,
                            0 <= y < height,
                    ;
                    if y > 0 {
                        lemma_cell_index_bound(x as int, y - 1, w, height as int);
                        assert(cell_index(x as int, y - 1, w) == cell_index(x as int, y as int, w)
                            - w) by (nonlinear_arith);
                    }
                    if x > 0 {
                        lemma_cell_index_bound(x - 1, y as int, w, height as int);
                    }
                    if x > 0 && y > 0 {
                        lemma_cell_index_bound(x - 1, y - 1, w, height as int);
                        assert(cell_index(x - 1, y - 1, w) == cell_index(x as int, y as int, w) - w
                            - 1) by (nonlinear_arith);
                    }
                }
                let here: usize = y * width + x;
                let up_left: u64 = if x > 0 && y > 0 {
                    sums[here - width - 1] as u64
                } else {
                    0
                };
                let up: u64 = if y > 0 {
                    sums[here - width] as u64
                } else {
                    0
                };
                let left: u64 = if x > 0 {
                    sums[here - 1] as u64
                } else {
                    0
                };
                let c = image.get_pixel(x, y);
                let curr: u64 = (c.r as u64 + c.g as u64 + c.b as u64) / 3;
                let ghost before = sums@;
                sums.set(here, (up + left + curr - up_left) as u32);
                proof {
                    assert forall|x2: int, y2: int|
                        0 <= x2 < width && (0 <= y2 < y || (y2 == y && x2 < x
                            + 1)) implies #[trigger] sums@[cell_index(x2, y2, w)] == block_sum(
                        image,
                        x2,
                        y2,
                    ) by {
                        lemma_cell_index_bound(x2, y2, w, height as int);
                        if x2 == x && y2 == y {
                        } else {
                            if cell_index(x2, y2, w) == here {
                                crate::grid::lemma_cell_index_injective(
                                    x2,
                                    y2,
                                    x as int,
                                    y as int,
                                    w,
                                );
                            }
                            assert(sums@[cell_index(x2, y2, w)] == before[cell_index(x2, y2, w)]);
                        }
                    }
                }
                x += 1;
            }
            y += 1;
        }
        Self { sums, width, height }
    }

    /// The entry for `(x, y)`; 0 if the point lies outside the table.
    pub fn get_bot_right_sum(&self, x: i32, y: i32) -> (s: u32)
        requires
            self.wf(),
        ensures
            s == self.spec_entry(x as int, y as int),
    {
        if x >= 0 && y >= 0 && (x as usize) < self.width && (y as usize) < self.height {
            proof {
                lemma_cell_index_bound(
                    x as int,
                    y as int,
                    self.width as int,
                    self.height as int,
                );
            }
            let n = self.sums.len();
            self.sums[y as usize * self.width + x as usize]
        } else {
            0
        }
    }

    /// The sum that the table gives for the region from `top_left` to
    /// `bot_right`, both with.
    pub fn get_region_sum_top_left_bot_right(&self, top_left: PointI32, bot_right: PointI32) -> (s:
        u32)
        requires
            self.wf(),
            top_left.x <= bot_right.x,
            top_left.y <= bot_right.y,
            i32::MIN < top_left.x,
            i32::MIN < top_left.y,
            0 <= self.spec_region(top_left, bot_right) <= u32::MAX,
        ensures
            s == self.spec_region(top_left, bot_right),
    {
        let left_region = self.get_bot_right_sum(top_left.x - 1, bot_right.y);
        let up_region = self.get_bot_right_sum(bot_right.x, top_left.y - 1);
        let overlap = self.get_bot_right_sum(top_left.x - 1, top_left.y - 1);
        let total = self.get_bot_right_sum(bot_right.x, bot_right.y);
        (total as u64 + overlap as u64 - left_region as u64 - up_region as u64) as u32
    }

    /// The sum that the table gives for the region `w` wide and `h` high
    /// with its top left corner at `(x, y)`.
    pub fn get_region_sum_x_y_w_h(&self, x: usize, y: usize, w: usize, h: usize) -> (s: u32)
        requires
            self.wf(),
            w >= 1,
            h >= 1,
            x + w - 1 <= i32::MAX,
            y + h - 1 <= i32::MAX,
            0 <= self.spec_region(
                PointI32 { x: x as i32, y: y as i32 },
                PointI32 { x: (x + w - 1) as i32, y: (y + h - 1) as i32 },
            ) <= u32::MAX,
        ensures
            s == self.spec_region(
                PointI32 { x: x as i32, y: y as i32 },
                PointI32 { x: (x + w - 1) as i32, y: (y + h - 1) as i32 },
            ),
    {
        let top_left = PointI32::new(x as i32, y as i32);
        let bot_right = PointI32::new((x + w - 1) as i32, (y + h - 1) as i32);
        self.get_region_sum_top_left_bot_right(top_left, bot_right)
    }
}

} // verus!
