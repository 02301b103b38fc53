//! Images: one bit per pixel, a generic scalar per pixel, and RGBA.

use bit_vec::BitVec;
use vstd::prelude::*;
use vstd::string::StringSliceAdditionalSpecFns;

use crate::bits::bits;
use crate::bits::bitvec_clone;
use crate::bits::bitvec_from_elem;
use crate::bits::bitvec_get;
use crate::bits::bitvec_len;
use crate::bits::bitvec_set;
use crate::bound::aabb;
use crate::bound::BoundingRect;
use crate::color::Color;
use crate::color::ColorName;
use crate::field::Field;
use crate::grid::cell_index;
use crate::grid::lemma_cell_index_bound;
use crate::grid::lemma_cell_index_injective;
use crate::grid::raster_filter;
use crate::point::PointI32;
use crate::text::push_char;

verus! {

/// Image with 1 bit per pixel, stored row by row.
#[derive(Debug)]
pub struct BinaryImage {
    pub pixels: BitVec,
    pub width: usize,
    pub height: usize,
}

/// Generalization of 2D array of pixels with any item.
pub struct ScalerField<T> {
    field: Field<T>,
}

/// Component of `MonoImage`.
pub type MonoImageItem = u16;

/// Image with grayscale values.
pub type MonoImage = ScalerField<MonoImageItem>;

/// Image with 4 bytes per pixel: red, green, blue, alpha, row by row.
pub struct ColorImage {
    pub pixels: Vec<u8>,
    pub width: usize,
    pub height: usize,
}

/// Walks over the pixels of a `ColorImage` in storage order.
pub struct ColorImageIter<'a> {
    im: &'a ColorImage,
    curr: usize,
    stop: usize,
}

/// The row of a byte of a line is below the number of lines, and rows
/// and columns are not negative.
pub proof fn lemma_row_below_count(b: Seq<u8>, i: int)
    requires
        0 <= i < b.len(),
        is_content(b, i),
    ensures
        0 <= row_of(b, i) < line_count(b),
        0 <= col_of(b, i),
{
    lemma_rows_grow(b, i, b.len() as int);
    lemma_positions_not_negative(b, i);
    if b[b.len() - 1] == 10 {
        lemma_rows_grow(b, i + 1, b.len() - 1);
        lemma_rows_grow(b, i, i + 1);
        assert(row_of(b, b.len() as int) == row_of(b, b.len() - 1) + 1);
    }
}

/// Rows and columns are not negative.
pub proof fn lemma_positions_not_negative(b: Seq<u8>, i: int)
    ensures
        0 <= row_of(b, i),
        0 <= col_of(b, i),
    decreases i,
{
    if i > 0 {
        lemma_positions_not_negative(b, i - 1);
    }
}

/// There are no more rows before a place than bytes.
pub proof fn lemma_row_at_most(b: Seq<u8>, i: int)
    requires
        0 <= i,
    ensures
        row_of(b, i) <= i,
    decreases i,
{
    if i > 0 {
        lemma_row_at_most(b, i - 1);
    }
}

/// The row does not go down along the text.
pub proof fn lemma_rows_grow(b: Seq<u8>, i: int, j: int)
    requires
        i <= j,
    ensures
        row_of(b, i) <= row_of(b, j),
    decreases j - i,
{
    if i < j {
        lemma_rows_grow(b, i, j - 1);
    }
}

/// A byte of a line that stands before the place `j` stands in an earlier
/// row or, in the row of `j`, in an earlier column.
pub proof fn lemma_cell_before(b: Seq<u8>, k: int, j: int)
    requires
        0 <= k < j <= b.len(),
        is_content(b, k),
    ensures
        row_of(b, k) < row_of(b, j) || (row_of(b, k) == row_of(b, j) && col_of(b, k) < col_of(b, j)),
    decreases j - k,
{
    if k + 1 < j {
        lemma_cell_before(b, k, j - 1);
        lemma_positions_not_negative(b, j - 1);
    }
}

/// How many of the first `n` bits are set.
pub open spec fn count_set(b: Seq<bool>, n: int) -> int
    decreases n,
{
    if n <= 0 {
        0
    } else {
        count_set(b, n - 1) + if b[n - 1] {
            1int
        } else {
            0int
        }
    }
}

/// Is the byte at `i` part of a line, rather than a line feed or the
/// carriage return before one?
pub open spec fn is_content(b: Seq<u8>, i: int) -> bool {
    b[i] != 10 && !(b[i] == 13 && i + 1 < b.len() && b[i + 1] == 10)
}

/// The line in which the byte at `i` stands: the number of line feeds
/// before it.
pub open spec fn row_of(b: Seq<u8>, i: int) -> int
    decreases i,
{
    if i <= 0 {
        0
    } else {
        row_of(b, i - 1) + if b[i - 1] == 10 {
            1int
        } else {
            0int
        }
    }
}

/// The place in its line of the byte at `i`: the number of bytes of the
/// line before it.
pub open spec fn col_of(b: Seq<u8>, i: int) -> int
    decreases i,
{
    if i <= 0 {
        0
    } else if b[i - 1] == 10 {
        0
    } else {
        col_of(b, i - 1) + if is_content(b, i - 1) {
            1int
        } else {
            0int
        }
    }
}

/// The length of the first line, found from the byte at `i` on.
pub open spec fn first_line_len(b: Seq<u8>, i: int) -> int
    decreases b.len() - i,
{
    if i < 0 || i >= b.len() {
        col_of(b, b.len() as int)
    } else if b[i] == 10 {
        col_of(b, i)
    } else {
        first_line_len(b, i + 1)
    }
}

/// The number of lines: a line feed ends a line, and what follows the
/// last line feed is a line if it is not empty.
pub open spec fn line_count(b: Seq<u8>) -> int {
    if b.len() == 0 {
        0
    } else if b[b.len() - 1] == 10 {
        row_of(b, b.len() as int)
    } else {
        row_of(b, b.len() as int) + 1
    }
}

/// The text can be read as an image: it is ASCII and no line is longer
/// than the first.
pub open spec fn is_image_text(b: Seq<u8>) -> bool {
    forall|i: int|
        0 <= i < b.len() && #[trigger] is_content(b, i) ==> col_of(b, i) < first_line_len(b, 0)
}

impl Clone for BinaryImage {
    fn clone(&self) -> (image: Self)
        ensures
            image.width == self.width,
            image.height == self.height,
            bits(image.pixels) == bits(self.pixels),
    {
        self.duplicate()
    }
}

impl Default for BinaryImage {
    /// An image without pixels.
    fn default() -> (image: Self)
        ensures
            image.is_blank(0, 0),
            image.wf(),
    {
        BinaryImage { pixels: bitvec_from_elem(0, false), width: 0, height: 0 }
    }
}

impl BinaryImage {
    /// Reads an image from text: each line is a row, and `*` is a set
    /// pixel; the first line gives the width.
    pub fn from_string(string: &str) -> (image: BinaryImage)
        requires
            string.is_ascii(),
            is_image_text(string.spec_bytes()),
            first_line_len(string.spec_bytes(), 0) * line_count(string.spec_bytes())
                <= usize::MAX,
        ensures
            image.wf(),
            image.width == first_line_len(string.spec_bytes(), 0),
            image.height == line_count(string.spec_bytes()),
            forall|i: int|
                0 <= i < string.spec_bytes().len() && #[trigger] is_content(
                    string.spec_bytes(),
                    i,
                ) ==> image.spec_get(
                    col_of(string.spec_bytes(), i),
                    row_of(string.spec_bytes(), i),
                ) == (string.spec_bytes()[i] == 42),
    {
        let bytes = string.as_bytes();
        let ghost b = bytes@;
        let n = bytes.len();
        // the width: up to the first line feed
        let mut width: usize = 0;
        let mut i: usize = 0;
        while i < n && bytes[i] != 10
            invariant
                i <= n,
                n == b.len(),
                b == bytes@,
                width == col_of(b, i as int),
                width <= i,
                first_line_len(b, 0) == first_line_len(b, i as int),
            decreases n - i,
        {
            if !(bytes[i] == 13 && i + 1 < n && bytes[i + 1] == 10) {
                width += 1;
            }
            i += 1;
        }
        // the height: the number of lines
        let mut height: usize = 0;
        let mut i: usize = 0;
        while i < n
            invariant
                i <= n,
                n == b.len(),
                b == bytes@,
                height == row_of(b, i as int),
                height <= i,
            decreases n - i,
        {
            if bytes[i] == 10 {
                height += 1;
            }
            i += 1;
        }
        if n > 0 && bytes[n - 1] != 10 {
            proof {
                lemma_row_at_most(b, n - 1);
            }
            height += 1;
        }
        let mut image = Self::new_w_h(width, height);
        let mut x: usize = 0;
        let mut y: usize = 0;
        let mut i: usize = 0;
        while i < n
            invariant
                i <= n,
                n == b.len(),
                b == bytes@,
                is_image_text(b),
                x == col_of(b, i as int),
                y == row_of(b, i as int),
                x <= i,
                y <= i,
                width == first_line_len(b, 0),
                height == line_count(b),
                image.wf(),
                image.width == width,
                image.height == height,
                forall|k: int|
                    0 <= k < i && #[trigger] is_content(b, k) ==> image.spec_get(
                        col_of(b, k),
                        row_of(b, k),
                    ) == (b[k] == 42),
                forall|x2: int, y2: int|
                    image.in_bounds(x2, y2) && (y2 > y || (y2 == y && x2 >= x))
                        ==> !#[trigger] image.spec_get(x2, y2),
            decreases n - i,
        {
            let c = bytes[i];
            if c == 10 {
                y += 1;
                x = 0;
            } else if c == 13 && i + 1 < n && bytes[i + 1] == 10 {
            } else {
                proof {
                    assert(is_content(b, i as int));
                    lemma_row_below_count(b, i as int);
                    image.lemma_in_store(x as int, y as int);
                }
                let ghost before = image;
                image.set_pixel(x, y, c == 42);
                proof {
                    assert forall|k: int| 0 <= k < i + 1 && #[trigger] is_content(b, k) implies image.spec_get(
                        col_of(b, k),
                        row_of(b, k),
                    ) == (b[k] == 42) by {
                        if k < i {
                            lemma_cell_before(b, k, i as int);
                            lemma_row_below_count(b, k);
                            assert(before.in_bounds(col_of(b, k), row_of(b, k)));
                        }
                    }
                }
                x += 1;
            }
            i += 1;
        }
        image
    }

    /// The number of bits in store.
    pub open spec fn spec_len(&self) -> nat {
        bits(self.pixels).len()
    }

    /// The store holds a bit for every pixel.
    pub open spec fn wf(&self) -> bool {
        self.width * self.height <= self.spec_len()
    }

    /// The bit stored for `(x, y)`.
    pub open spec fn spec_get(&self, x: int, y: int) -> bool {
        bits(self.pixels)[cell_index(x, y, self.width as int)]
    }

    /// `(x, y)` lies inside the image.
    pub open spec fn in_bounds(&self, x: int, y: int) -> bool {
        0 <= x < self.width && 0 <= y < self.height
    }

    /// The pixel at `(x, y)`, where every pixel outside the image is unset.
    pub open spec fn spec_get_safe(&self, x: int, y: int) -> bool {
        self.in_bounds(x, y) && self.spec_get(x, y)
    }

    /// The image is `w` by `h` and no pixel of it is set.
    pub open spec fn is_blank(&self, w: usize, h: usize) -> bool {
        &&& self.width == w
        &&& self.height == h
        &&& self.spec_len() == w * h
        &&& forall|i: int| 0 <= i < self.spec_len() ==> !(#[trigger] bits(self.pixels)[i])
    }

    /// The text of the image: a row of `*` (set) and `-` (unset) for each
    /// row of pixels, each row ended by a line feed.
    pub open spec fn spec_to_string(&self) -> Seq<char> {
        Seq::new(
            (self.height * (self.width + 1)) as nat,
            |i: int|
                if i % (self.width + 1) == self.width as int {
                    '\n'
                } else if self.spec_get(i % (self.width + 1), i / (self.width + 1)) {
                    '*'
                } else {
                    '-'
                },
        )
    }

    /// A pixel inside a well-formed image has its bit in store.
    pub proof fn lemma_in_store(&self, x: int, y: int)
        requires
            self.wf(),
            self.in_bounds(x, y),
        ensures
            0 <= cell_index(x, y, self.width as int) < self.width * self.height,
            cell_index(x, y, self.width as int) < self.spec_len(),
    {
        lemma_cell_index_bound(x, y, self.width as int, self.height as int);
    }

    /// A blank image of the given size.
    pub fn new_w_h(width: usize, height: usize) -> (image: BinaryImage)
        requires
            width * height <= usize::MAX,
        ensures
            image.is_blank(width, height),
            image.wf(),
            forall|x: int, y: int| image.in_bounds(x, y) ==> !(#[trigger] image.spec_get(x, y)),
    {
        let image = BinaryImage { pixels: bitvec_from_elem(width * height, false), width, height };
        proof {
            assert forall|x: int, y: int| image.in_bounds(x, y) implies !(#[trigger] image.spec_get(
                x,
                y,
            )) by {
                image.lemma_in_store(x, y);
            }
        }
        image
    }

    /// A copy of the image.
    pub fn duplicate(&self) -> (image: BinaryImage)
        ensures
            image.width == self.width,
            image.height == self.height,
            bits(image.pixels) == bits(self.pixels),
    {
        BinaryImage { pixels: bitvec_clone(&self.pixels), width: self.width, height: self.height }
    }

    pub fn get_pixel_at(&self, p: PointI32) -> (v: bool)
        requires
            p.x >= 0,
            p.y >= 0,
            cell_index(p.x as int, p.y as int, self.width as int) < self.spec_len(),
        ensures
            v == self.spec_get(p.x as int, p.y as int),
    {
        self.get_pixel(p.x as usize, p.y as usize)
    }

    /// The bit stored for `(x, y)`.
    pub fn get_pixel(&self, x: usize, y: usize) -> (v: bool)
        requires
            cell_index(x as int, y as int, self.width as int) < self.spec_len(),
        ensures
            v == self.spec_get(x as int, y as int),
    {
        let n = bitvec_len(&self.pixels);
        assert(y * self.width <= cell_index(x as int, y as int, self.width as int))
            by (nonlinear_arith);
        let i = y * self.width + x;
        match bitvec_get(&self.pixels, i) {
            Some(v) => v,
            None => false,
        }
    }

    pub fn get_pixel_at_safe(&self, p: PointI32) -> (v: bool)
        requires
            self.wf(),
        ensures
            v == self.spec_get_safe(p.x as int, p.y as int),
    {
        self.get_pixel_safe(p.x, p.y)
    }

    /// The pixel at `(x, y)`; outside the image, `false`.
    pub fn get_pixel_safe(&self, x: i32, y: i32) -> (v: bool)
        requires
            self.wf(),
        ensures
            v == self.spec_get_safe(x as int, y as int),
    {
        if x >= 0 && (x as usize) < self.width && y >= 0 && (y as usize) < self.height {
            proof {
                self.lemma_in_store(x as int, y as int);
            }
            return self.get_pixel(x as usize, y as usize);
        }
        false
    }

    /// Sets the bit stored for `(x, y)`.
    pub fn set_pixel(&mut self, x: usize, y: usize, v: bool)
        requires
            cell_index(x as int, y as int, old(self).width as int) < old(self).spec_len(),
        ensures
            final(self).width == old(self).width,
            final(self).height == old(self).height,
            bits(final(self).pixels) == bits(old(self).pixels).update(
                cell_index(x as int, y as int, old(self).width as int),
                v,
            ),
            old(self).wf() && x < old(self).width ==> final(self).wf() && forall|x2: int, y2: int|
                old(self).in_bounds(x2, y2) ==> #[trigger] final(self).spec_get(x2, y2) == (if x2
                    == x && y2 == y {
                    v
                } else {
                    old(self).spec_get(x2, y2)
                }),
    {
        let n = bitvec_len(&self.pixels);
        assert(y * self.width <= cell_index(x as int, y as int, self.width as int))
            by (nonlinear_arith);
        let i = y * self.width + x;
        bitvec_set(&mut self.pixels, i, v);
        proof {
            if old(self).wf() && x < old(self).width {
                assert forall|x2: int, y2: int| old(self).in_bounds(x2, y2) implies #[trigger] self.spec_get(
                    x2,
                    y2,
                ) == (if x2 == x && y2 == y {
                    v
                } else {
                    old(self).spec_get(x2, y2)
                }) by {
                    let w = old(self).width as int;
                    old(self).lemma_in_store(x2, y2);
                    if cell_index(x2, y2, w) == cell_index(x as int, y as int, w) {
                        lemma_cell_index_injective(x2, y2, x as int, y as int, w);
                    }
                }
            }
        }
    }

    pub fn set_pixel_at(&mut self, p: PointI32, v: bool)
        requires
            p.x >= 0,
            p.y >= 0,
            cell_index(p.x as int, p.y as int, old(self).width as int) < old(self).spec_len(),
        ensures
            final(self).width == old(self).width,
            final(self).height == old(self).height,
            bits(final(self).pixels) == bits(old(self).pixels).update(
                cell_index(p.x as int, p.y as int, old(self).width as int),
                v,
            ),
    {
        self.set_pixel(p.x as usize, p.y as usize, v);
    }

    /// Sets the bit at index `i` of the store.
    pub fn set_pixel_index(&mut self, i: usize, v: bool)
        requires
            i < old(self).spec_len(),
        ensures
            final(self).width == old(self).width,
            final(self).height == old(self).height,
            bits(final(self).pixels) == bits(old(self).pixels).update(i as int, v),
    {
        bitvec_set(&mut self.pixels, i, v);
    }

    /// Sets the pixel at `(x, y)` and returns `true`; outside the image
    /// nothing changes and `false` is returned.
    pub fn set_pixel_safe(&mut self, x: i32, y: i32, v: bool) -> (written: bool)
        requires
            old(self).wf(),
        ensures
            final(self).width == old(self).width,
            final(self).height == old(self).height,
            final(self).wf(),
            written == old(self).in_bounds(x as int, y as int),
            !written ==> bits(final(self).pixels) == bits(old(self).pixels),
            written ==> bits(final(self).pixels) == bits(old(self).pixels).update(
                cell_index(x as int, y as int, old(self).width as int),
                v,
            ),
            forall|x2: int, y2: int|
                old(self).in_bounds(x2, y2) ==> #[trigger] final(self).spec_get(x2, y2) == (if written
                    && x2 == x && y2 == y {
                    v
                } else {
                    old(self).spec_get(x2, y2)
                }),
    {
        if x >= 0 && (x as usize) < self.width && y >= 0 && (y as usize) < self.height {
            proof {
                self.lemma_in_store(x as int, y as int);
            }
            self.set_pixel(x as usize, y as usize, v);
            return true;
        }
        false
    }

    pub fn set_pixel_at_safe(&mut self, p: PointI32, v: bool)
        requires
            old(self).wf(),
        ensures
            final(self).width == old(self).width,
            final(self).height == old(self).height,
            final(self).wf(),
            forall|x2: int, y2: int|
                old(self).in_bounds(x2, y2) ==> #[trigger] final(self).spec_get(x2, y2) == (if old(self).in_bounds(p.x as int, p.y as int)
                    && x2 == p.x && y2 == p.y {
                    v
                } else {
                    old(self).spec_get(x2, y2)
                }),
    {
        self.set_pixel_safe(p.x, p.y, v);
    }

    /// The tight bounding rect of the set pixels; the zero rect if no
    /// pixel is set.
    pub fn bounding_rect(&self) -> (rect: BoundingRect)
        requires
            self.wf(),
            self.width <= i32::MAX,
            self.height <= i32::MAX,
        ensures
            rect.is_aabb_of(
                raster_filter(
                    self.width as int,
                    self.width * self.height,
                    |x: int, y: int| self.spec_get(x, y),
                ),
            ),
            rect.ordered(),
            0 <= rect.left,
            0 <= rect.top,
            rect.right <= self.width,
            rect.bottom <= self.height,
    {
        let mut rect = BoundingRect::default();
        let ghost w = self.width as int;
        let ghost f = |x: int, y: int| self.spec_get(x, y);
        let mut y: usize = 0;
        while y < self.height
            invariant
                y <= self.height,
                self.wf(),
                self.width <= i32::MAX,
                self.height <= i32::MAX,
                w == self.width,
                f == (|x: int, y: int| self.spec_get(x, y)),
                rect.is_aabb_of(raster_filter(w, y * w, f)),
            decreases self.height - y,
        {
            let mut x: usize = 0;
            while x < self.width
                invariant
                    x <= self.width,
                    y < self.height,
                    self.wf(),
                    self.width <= i32::MAX,
                    self.height <= i32::MAX,
                    w == self.width,
                    f == (|x: int, y: int| self.spec_get(x, y)),
                    rect.is_aabb_of(raster_filter(w, cell_index(x as int, y as int, w), f)),
                decreases self.width - x,
            {
                proof {
                    self.lemma_in_store(x as int, y as int);
                    crate::grid::lemma_raster_filter_step(w, x as int, y as int, f);
                    rect.lemma_add_keeps_aabb(
                        raster_filter(w, cell_index(x as int, y as int, w), f),
                        x as int,
                        y as int,
                    );
                }
                if self.get_pixel(x, y) {
                    rect.add_x_y(x as i32, y as i32);
                }
                x += 1;
            }
            assert(cell_index(w, y as int, w) == (y + 1) * w) by (nonlinear_arith);
            y += 1;
        }
        proof {
            assert(self.height * w == self.width * self.height) by (nonlinear_arith)
                requires
                    w == self.width,
            ;
            let cells = raster_filter(w, self.width * self.height, f);
            if cells.len() > 0 {
                crate::bound::lemma_aabb_tight(cells);
                crate::grid::lemma_raster_filter_members(w, self.width * self.height, f);
                let i0 = choose|i: int| 0 <= i < cells.len() && (#[trigger] cells[i]).0 == aabb(cells).0;
                let i1 = choose|i: int| 0 <= i < cells.len() && (#[trigger] cells[i]).1 == aabb(cells).1;
                let i2 = choose|i: int|
                    0 <= i < cells.len() && (#[trigger] cells[i]).0 + 1 == aabb(cells).2;
                let i3 = choose|i: int|
                    0 <= i < cells.len() && (#[trigger] cells[i]).1 + 1 == aabb(cells).3;
                let c3 = cells[i3];
                assert(cell_index(c3.0, c3.1, w) < w * self.height);
                assert(c3.1 < self.height) by (nonlinear_arith)
                    requires
                        c3.1 * w + c3.0 < w * self.height,
                        0 <= c3.0 < w,
                        0 <= c3.1,
                ;
            }
        }
        rect
    }

    /// The part of the image inside `rect`, as an image of its own.
    pub fn crop_with_rect(&self, rect: BoundingRect) -> (image: BinaryImage)
        requires
            self.wf(),
            0 <= rect.left <= rect.right <= self.width,
            0 <= rect.top <= rect.bottom <= self.height,
        ensures
            image.wf(),
            image.width == rect.spec_width(),
            image.height == rect.spec_height(),
            forall|x: int, y: int|
                image.in_bounds(x, y) ==> #[trigger] image.spec_get(x, y) == self.spec_get(
                    x + rect.left,
                    y + rect.top,
                ),
    {
        let n = bitvec_len(&self.pixels);
        let cw: usize = (rect.right - rect.left) as usize;
        let ch: usize = (rect.bottom - rect.top) as usize;
        assert(cw * ch <= self.width * self.height) by (nonlinear_arith)
            requires
                0 <= cw <= self.width,
                0 <= ch <= self.height,
        ;
        let mut image = BinaryImage::new_w_h(cw, ch);
        let ox: usize = rect.left as usize;
        let oy: usize = rect.top as usize;
        let mut y: usize = 0;
        while y < ch
            invariant
                y <= ch,
                self.wf(),
                image.wf(),
                image.width == cw,
                image.height == ch,
                ox + cw <= self.width,
                oy + ch <= self.height,
                forall|x2: int, y2: int|
                    image.in_bounds(x2, y2) ==> #[trigger] image.spec_get(x2, y2) == (y2 < y
                        && self.spec_get(x2 + ox, y2 + oy)),
            decreases ch - y,
        {
            let mut x: usize = 0;
            while x < cw
                invariant
                    x <= cw,
                    y < ch,
                    self.wf(),
                    image.wf(),
                    image.width == cw,
                    image.height == ch,
                    ox + cw <= self.width,
                    oy + ch <= self.height,
                    forall|x2: int, y2: int|
                        image.in_bounds(x2, y2) ==> #[trigger] image.spec_get(x2, y2) == ((y2 < y
                            || (y2 == y && x2 < x)) && self.spec_get(x2 + ox, y2 + oy)),
                decreases cw - x,
            {
                proof {
                    self.lemma_in_store(x + ox, y + oy);
                    image.lemma_in_store(x as int, y as int);
                }
                if self.get_pixel(x + ox, y + oy) {
                    image.set_pixel(x, y, true);
                }
                x += 1;
            }
            y += 1;
        }
        image
    }

    /// The image cropped to the bounding rect of its set pixels.
    pub fn crop(&self) -> (image: BinaryImage)
        requires
            self.wf(),
            self.width <= i32::MAX,
            self.height <= i32::MAX,
        ensures
            image.wf(),
            ({
                let cells = raster_filter(
                    self.width as int,
                    self.width * self.height,
                    |x: int, y: int| self.spec_get(x, y),
                );
                &&& image.width == aabb(cells).2 - aabb(cells).0
                &&& image.height == aabb(cells).3 - aabb(cells).1
                &&& forall|x: int, y: int|
                    image.in_bounds(x, y) ==> #[trigger] image.spec_get(x, y) == self.spec_get(
                        x + aabb(cells).0,
                        y + aabb(cells).1,
                    )
            }),
    {
        self.crop_with_rect(self.bounding_rect())
    }

    /// A larger image with this image centered in it: the content is
    /// moved right and down by half the growth, rounded down.
    pub fn uncrop(&self, new_width: usize, new_height: usize) -> (image: BinaryImage)
        requires
            self.wf(),
            new_width >= self.width,
            new_height >= self.height,
            new_width * new_height <= usize::MAX,
        ensures
            image.wf(),
            image.width == new_width,
            image.height == new_height,
            forall|x: int, y: int|
                image.in_bounds(x, y) ==> #[trigger] image.spec_get(x, y) == self.spec_get_safe(
                    x - (new_width - self.width) / 2,
                    y - (new_height - self.height) / 2,
                ),
    {
        let dw: usize = new_width - self.width;
        let dh: usize = new_height - self.height;
        assert(dw >> 1usize == dw / 2) by (bit_vector);
        assert(dh >> 1usize == dh / 2) by (bit_vector);
        let xx: usize = dw >> 1;
        let yy: usize = dh >> 1;
        let mut new_image = BinaryImage::new_w_h(new_width, new_height);
        let mut y: usize = 0;
        while y < self.height
            invariant
                y <= self.height,
                self.wf(),
                new_image.wf(),
                new_image.width == new_width,
                new_image.height == new_height,
                xx + self.width <= new_width,
                yy + self.height <= new_height,
                forall|x2: int, y2: int|
                    new_image.in_bounds(x2, y2) ==> #[trigger] new_image.spec_get(x2, y2) == (y2
                        - yy < y && self.spec_get_safe(x2 - xx, y2 - yy)),
            decreases self.height - y,
        {
            let mut x: usize = 0;
            while x < self.width
                invariant
                    x <= self.width,
                    y < self.height,
                    self.wf(),
                    new_image.wf(),
                    new_image.width == new_width,
                    new_image.height == new_height,
                    xx + self.width <= new_width,
                    yy + self.height <= new_height,
                    forall|x2: int, y2: int|
                        new_image.in_bounds(x2, y2) ==> #[trigger] new_image.spec_get(x2, y2) == ((
                        y2 - yy < y || (y2 - yy == y && x2 - xx < x)) && self.spec_get_safe(
                            x2 - xx,
                            y2 - yy,
                        )),
                decreases self.width - x,
            {
                proof {
                    self.lemma_in_store(x as int, y as int);
                    new_image.lemma_in_store(x + xx, y + yy);
                }
                if self.get_pixel(x, y) {
                    new_image.set_pixel(x + xx, y + yy, true);
                }
                x += 1;
            }
            y += 1;
        }
        new_image
    }

    /// Sets in `self` every pixel that is set in `src`, `src` placed with
    /// its top left corner at `offset`.
    pub fn paste_from(&mut self, src: &BinaryImage, offset: PointI32)
        requires
            old(self).wf(),
            src.wf(),
            0 <= offset.x,
            0 <= offset.y,
            offset.x + src.width <= old(self).width,
            offset.y + src.height <= old(self).height,
        ensures
            final(self).wf(),
            final(self).width == old(self).width,
            final(self).height == old(self).height,
            forall|x: int, y: int|
                old(self).in_bounds(x, y) ==> #[trigger] final(self).spec_get(x, y) == (old(self).spec_get(x, y) || src.spec_get_safe(x - offset.x, y - offset.y)),
    {
        let ox: usize = offset.x as usize;
        let oy: usize = offset.y as usize;
        let mut y: usize = 0;
        while y < src.height
            invariant
                y <= src.height,
                self.wf(),
                src.wf(),
                self.width == old(self).width,
                self.height == old(self).height,
                ox == offset.x,
                oy == offset.y,
                ox + src.width <= self.width,
                oy + src.height <= self.height,
                forall|x2: int, y2: int|
                    self.in_bounds(x2, y2) ==> #[trigger] self.spec_get(x2, y2) == (old(self).spec_get(x2, y2) || (y2 - oy < y && src.spec_get_safe(x2 - ox, y2 - oy))),
            decreases src.height - y,
        {
            let mut x: usize = 0;
            while x < src.width
                invariant
                    x <= src.width,
                    y < src.height,
                    self.wf(),
                    src.wf(),
                    self.width == old(self).width,
                    self.height == old(self).height,
                    ox == offset.x,
                    oy == offset.y,
                    ox + src.width <= self.width,
                    oy + src.height <= self.height,
                    forall|x2: int, y2: int|
                        self.in_bounds(x2, y2) ==> #[trigger] self.spec_get(x2, y2) == (old(self).spec_get(x2, y2) || ((y2 - oy < y || (y2 - oy == y && x2 - ox < x))
                            && src.spec_get_safe(x2 - ox, y2 - oy))),
                decreases src.width - x,
            {
                proof {
                    src.lemma_in_store(x as int, y as int);
                    self.lemma_in_store(x + ox, y + oy);
                }
                if src.get_pixel(x, y) {
                    self.set_pixel(x + ox, y + oy, true);
                }
                x += 1;
            }
            y += 1;
        }
    }

    /// The number of set bits in store.
    pub fn area(&self) -> (a: u64)
        ensures
            a == count_set(bits(self.pixels), self.spec_len() as int),
    {
        let n = bitvec_len(&self.pixels);
        let mut a: u64 = 0;
        let mut i: usize = 0;
        while i < n
            invariant
                i <= n,
                n == self.spec_len(),
                a == count_set(bits(self.pixels), i as int),
                a <= i,
            decreases n - i,
        {
            let b = bitvec_get(&self.pixels, i);
            if b == Some(true) {
                a += 1;
            }
            i += 1;
        }
        a
    }

    /// The text of the image, one line per row.
    pub fn to_string(&self) -> (s: String)
        requires
            self.wf(),
            self.height * (self.width + 1) <= usize::MAX,
        ensures
            s@ == self.spec_to_string(),
    {
        let mut s = String::new();
        let mut y: usize = 0;
        let ghost row = self.width + 1;
        while y < self.height
            invariant
                y <= self.height,
                self.wf(),
                row == self.width + 1,
                s@.len() == y * row,
                forall|i: int| 0 <= i < s@.len() ==> #[trigger] s@[i] == self.spec_to_string()[i],
            decreases self.height - y,
        {
            let mut x: usize = 0;
            proof {
                lemma_cell_index_bound(0, y as int, row, self.height as int);
            }
            while x < self.width
                invariant
                    x <= self.width,
                    y < self.height,
                    self.wf(),
                    row == self.width + 1,
                    s@.len() == y * row + x,
                    y * row + row <= self.height * row,
                    forall|i: int|
                        0 <= i < s@.len() ==> #[trigger] s@[i] == self.spec_to_string()[i],
                decreases self.width - x,
            {
                proof {
                    self.lemma_in_store(x as int, y as int);
                    crate::grid::lemma_cell_of_index(x as int, y as int, row);
                }
                let c = if self.get_pixel(x, y) {
                    '*'
                } else {
                    '-'
                };
                push_char(&mut s, c);
                x += 1;
            }
            proof {
                crate::grid::lemma_cell_of_index(self.width as int, y as int, row);
            }
            push_char(&mut s, '\n');
            assert(y * row + row == (y + 1) * row) by (nonlinear_arith);
            y += 1;
        }
        assert(s@ =~= self.spec_to_string());
        s
    }

    /// A colour image of the same size: set pixels black, unset pixels white.
    pub fn to_color_image(&self) -> (image: ColorImage)
        requires
            self.wf(),
            self.width * self.height * 4 <= usize::MAX,
        ensures
            image.wf(),
            image.width == self.width,
            image.height == self.height,
            forall|x: int, y: int|
                self.in_bounds(x, y) ==> #[trigger] image.spec_get(x, y) == (if self.spec_get(
                    x,
                    y,
                ) {
                    Color::spec_color(ColorName::Black)
                } else {
                    Color::spec_color(ColorName::White)
                }),
    {
        let mut image = ColorImage::new_w_h(self.width, self.height);
        let black = Color::color(&ColorName::Black);
        let white = Color::color(&ColorName::White);
        let mut y: usize = 0;
        while y < self.height
            invariant
                y <= self.height,
                self.wf(),
                image.wf(),
                image.width == self.width,
                image.height == self.height,
                black == Color::spec_color(ColorName::Black),
                white == Color::spec_color(ColorName::White),
                forall|x2: int, y2: int|
                    0 <= x2 < self.width && 0 <= y2 < y ==> #[trigger] image.spec_get(x2, y2) == (
                    if self.spec_get(x2, y2) {
                        black
                    } else {
                        white
                    }),
            decreases self.height - y,
        {
            let mut x: usize = 0;
            while x < self.width
                invariant
                    x <= self.width,
                    y < self.height,
                    self.wf(),
                    image.wf(),
                    image.width == self.width,
                    image.height == self.height,
                    black == Color::spec_color(ColorName::Black),
                    white == Color::spec_color(ColorName::White),
                    forall|x2: int, y2: int|
                        0 <= x2 < self.width && (0 <= y2 < y || (y2 == y && x2 < x))
                            ==> #[trigger] image.spec_get(x2, y2) == (if self.spec_get(x2, y2) {
                            black
                        } else {
                            white
                        }),
                decreases self.width - x,
            {
                proof {
                    self.lemma_in_store(x as int, y as int);
                    image.lemma_in_store(x as int, y as int);
                }
                let c = if self.get_pixel(x, y) {
                    black
                } else {
                    white
                };
                image.set_pixel(x, y, &c);
                x += 1;
            }
            y += 1;
        }
        image
    }
}

impl<T: Default> ScalerField<T> {
    /// A field of the given size, each item the default of its type.
    pub fn new_w_h(width: usize, height: usize) -> (f: Self)
        requires
            width * height <= usize::MAX,
        ensures
            f.spec_width() == width,
            f.spec_height() == height,
            f@.len() == width * height,
            forall|i: int| 0 <= i < f@.len() ==> call_ensures(T::default, (), #[trigger] f@[i]),
    {
        Self { field: Field::with_default(width, height) }
    }
}

impl<T> View for ScalerField<T> {
    type V = Seq<T>;

    /// The items, row by row.
    closed spec fn view(&self) -> Seq<T> {
        self.field@
    }
}

impl<T> ScalerField<T> {
    pub closed spec fn spec_width(&self) -> usize {
        self.field.spec_width()
    }

    pub closed spec fn spec_height(&self) -> usize {
        self.field.spec_height()
    }
}

impl<T: Clone> ScalerField<T> {
    /// A clone of the item at `(x, y)`.
    pub fn get_pixel(&self, x: usize, y: usize) -> (v: T)
        requires
            cell_index(x as int, y as int, self.spec_width() as int) < self@.len(),
        ensures
            cloned(self@[cell_index(x as int, y as int, self.spec_width() as int)], v),
    {
        let n = self.field.len();
        assert(self.spec_width() * y == y * self.spec_width()) by (nonlinear_arith);
        let i = self.field.index_at(x, y);
        self.field.get(i).unwrap()
    }

    /// Stores `v` at `(x, y)`.
    pub fn set_pixel(&mut self, x: usize, y: usize, v: T)
        requires
            cell_index(x as int, y as int, old(self).spec_width() as int) < old(self)@.len(),
        ensures
            final(self).spec_width() == old(self).spec_width(),
            final(self).spec_height() == old(self).spec_height(),
            final(self)@ == old(self)@.update(
                cell_index(x as int, y as int, old(self).spec_width() as int),
                v,
            ),
    {
        let n = self.field.len();
        assert(self.spec_width() * y == y * self.spec_width()) by (nonlinear_arith);
        let i = self.field.index_at(x, y);
        self.field.replace(i, v);
    }
}

impl<'a> ColorImageIter<'a> {
    /// The number of pixels handed out so far.
    pub closed spec fn spec_position(&self) -> usize {
        self.curr
    }

    /// The number of pixels to hand out in all.
    pub closed spec fn spec_stop(&self) -> usize {
        self.stop
    }

    /// The image walked over.
    pub closed spec fn spec_image(&self) -> &'a ColorImage {
        self.im
    }

    /// The next pixel, or `None` after the last.
    pub fn next(&mut self) -> (r: Option<Color>)
        requires
            old(self).spec_image().wf(),
            old(self).spec_stop() == old(self).spec_image().width * old(self).spec_image().height,
        ensures
            final(self).spec_image() == old(self).spec_image(),
            final(self).spec_stop() == old(self).spec_stop(),
            old(self).spec_position() < old(self).spec_stop() ==> final(self).spec_position()
                == old(self).spec_position() + 1 && r == Some(
                old(self).spec_image().spec_get_at(old(self).spec_position() as int),
            ),
            old(self).spec_position() >= old(self).spec_stop() ==> r is None && final(self).spec_position() == old(self).spec_position(),
    {
        if self.curr < self.stop {
            let res = self.im.get_pixel_at(self.curr);
            self.curr += 1;
            Some(res)
        } else {
            None
        }
    }
}

impl Default for ColorImage {
    /// The image without pixels.
    fn default() -> (image: Self)
        ensures
            image.width == 0,
            image.height == 0,
            image.pixels@.len() == 0,
    {
        Self { pixels: Vec::new(), width: 0, height: 0 }
    }
}

impl ColorImage {
    /// The store holds four bytes for every pixel.
    pub open spec fn wf(&self) -> bool {
        self.pixels@.len() == self.width * self.height * 4
    }

    /// The colour stored for the pixel of index `i`.
    pub open spec fn spec_get_at(&self, i: int) -> Color {
        Color {
            r: self.pixels@[4 * i],
            g: self.pixels@[4 * i + 1],
            b: self.pixels@[4 * i + 2],
            a: self.pixels@[4 * i + 3],
        }
    }

    /// The colour stored for `(x, y)`.
    pub open spec fn spec_get(&self, x: int, y: int) -> Color {
        self.spec_get_at(cell_index(x, y, self.width as int))
    }

    /// `(x, y)` lies inside the image.
    pub open spec fn in_bounds(&self, x: int, y: int) -> bool {
        0 <= x < self.width && 0 <= y < self.height
    }

    /// A pixel inside a well-formed image has its four bytes in store.
    pub proof fn lemma_in_store(&self, x: int, y: int)
        requires
            self.wf(),
            self.in_bounds(x, y),
        ensures
            0 <= cell_index(x, y, self.width as int) < self.width * self.height,
            4 * cell_index(x, y, self.width as int) + 3 < self.pixels@.len(),
    {
        lemma_cell_index_bound(x, y, self.width as int, self.height as int);
    }

    pub fn new() -> (image: Self)
        ensures
            image.width == 0,
            image.height == 0,
            image.pixels@.len() == 0,
    {
        Self { pixels: Vec::new(), width: 0, height: 0 }
    }

    /// An image of the given size, every byte zero.
    pub fn new_w_h(width: usize, height: usize) -> (image: Self)
        requires
            width * height * 4 <= usize::MAX,
        ensures
            image.wf(),
            image.width == width,
            image.height == height,
            forall|i: int| 0 <= i < image.pixels@.len() ==> #[trigger] image.pixels@[i] == 0,
    {
        assert(width * height <= width * height * 4) by (nonlinear_arith);
        let n: usize = width * height * 4;
        let mut pixels: Vec<u8> = Vec::new();
        let mut i: usize = 0;
        while i < n
            invariant
                i <= n,
                pixels@.len() == i,
                forall|j: int| 0 <= j < pixels@.len() ==> #[trigger] pixels@[j] == 0,
            decreases n - i,
        {
            pixels.push(0);
            i += 1;
        }
        Self { pixels, width, height }
    }

    /// Walks over the pixels in storage order.
    pub fn iter(&self) -> (it: ColorImageIter<'_>)
        requires
            self.width * self.height <= usize::MAX,
        ensures
            it.spec_image() == self,
            it.spec_position() == 0,
            it.spec_stop() == self.width * self.height,
    {
        ColorImageIter { im: self, curr: 0, stop: self.width * self.height }
    }

    pub fn get_pixel(&self, x: usize, y: usize) -> (c: Color)
        requires
            4 * cell_index(x as int, y as int, self.width as int) + 3 < self.pixels@.len(),
        ensures
            c == self.spec_get(x as int, y as int),
    {
        let n = self.pixels.len();
        assert(y * self.width <= cell_index(x as int, y as int, self.width as int))
            by (nonlinear_arith);
        let index = y * self.width + x;
        self.get_pixel_at(index)
    }

    pub fn get_pixel_at_point_safe(&self, p: PointI32) -> (c: Option<Color>)
        requires
            self.wf(),
        ensures
            c == (if self.in_bounds(p.x as int, p.y as int) {
                Some(self.spec_get(p.x as int, p.y as int))
            } else {
                None
            }),
    {
        self.get_pixel_safe(p.x, p.y)
    }

    /// The colour at `(x, y)`; outside the image, `None`.
    pub fn get_pixel_safe(&self, x: i32, y: i32) -> (c: Option<Color>)
        requires
            self.wf(),
        ensures
            c == (if self.in_bounds(x as int, y as int) {
                Some(self.spec_get(x as int, y as int))
            } else {
                None
            }),
    {
        if x >= 0 && (x as usize) < self.width && y >= 0 && (y as usize) < self.height {
            proof {
                self.lemma_in_store(x as int, y as int);
            }
            return Some(self.get_pixel(x as usize, y as usize));
        }
        None
    }

    /// The colour of the pixel of index `index`.
    pub fn get_pixel_at(&self, index: usize) -> (c: Color)
        requires
            4 * index + 3 < self.pixels@.len(),
        ensures
            c == self.spec_get_at(index as int),
    {
        let n = self.pixels.len();
        let index = index * 4;
        let r = self.pixels[index];
        let g = self.pixels[index + 1];
        let b = self.pixels[index + 2];
        let a = self.pixels[index + 3];
        Color::new_rgba(r, g, b, a)
    }

    pub fn set_pixel(&mut self, x: usize, y: usize, color: &Color)
        requires
            4 * cell_index(x as int, y as int, old(self).width as int) + 3 < old(self).pixels@.len(),
        ensures
            final(self).width == old(self).width,
            final(self).height == old(self).height,
            final(self).pixels@.len() == old(self).pixels@.len(),
            final(self).spec_get(x as int, y as int) == *color,
            forall|i: int|
                0 <= i && 4 * i + 3 < old(self).pixels@.len() && i != cell_index(
                    x as int,
                    y as int,
                    old(self).width as int,
                ) ==> #[trigger] final(self).spec_get_at(i) == old(self).spec_get_at(i),
            old(self).wf() && x < old(self).width ==> final(self).wf() && forall|x2: int, y2: int|
                old(self).in_bounds(x2, y2) && !(x2 == x && y2 == y) ==> #[trigger] final(self).spec_get(x2, y2) == old(self).spec_get(x2, y2),
    {
        let n = self.pixels.len();
        assert(y * self.width <= cell_index(x as int, y as int, self.width as int))
            by (nonlinear_arith);
        let index = y * self.width + x;
        self.set_pixel_at(index, color);
        proof {
            if old(self).wf() && x < old(self).width {
                assert forall|x2: int, y2: int|
                    old(self).in_bounds(x2, y2) && !(x2 == x && y2
                        == y) implies #[trigger] self.spec_get(x2, y2) == old(self).spec_get(
                    x2,
                    y2,
                ) by {
                    let w = old(self).width as int;
                    old(self).lemma_in_store(x2, y2);
                    if cell_index(x2, y2, w) == cell_index(x as int, y as int, w) {
                        lemma_cell_index_injective(x2, y2, x as int, y as int, w);
                    }
                }
            }
        }
    }

    /// Stores `color` for the pixel of index `index`.
    pub fn set_pixel_at(&mut self, index: usize, color: &Color)
        requires
            4 * index + 3 < old(self).pixels@.len(),
        ensures
            final(self).width == old(self).width,
            final(self).height == old(self).height,
            final(self).pixels@.len() == old(self).pixels@.len(),
            final(self).spec_get_at(index as int) == *color,
            forall|i: int|
                0 <= i && 4 * i + 3 < old(self).pixels@.len() && i != index
                    ==> #[trigger] final(self).spec_get_at(i) == old(self).spec_get_at(i),
    {
        let n = self.pixels.len();
        let index = index * 4;
        self.pixels.set(index, color.r);
        self.pixels.set(index + 1, color.g);
        self.pixels.set(index + 2, color.b);
        self.pixels.set(index + 3, color.a);
    }

    /// The binary image whose pixels are what `f` says of each colour.
    pub fn to_binary_image<F: Fn(Color) -> bool>(&self, f: F) -> (image: BinaryImage)
        requires
            self.wf(),
            forall|c: Color| call_requires(f, (c,)),
        ensures
            image.wf(),
            image.width == self.width,
            image.height == self.height,
            forall|x: int, y: int|
                self.in_bounds(x, y) ==> call_ensures(
                    f,
                    (self.spec_get(x, y),),
                    #[trigger] image.spec_get(x, y),
                ),
    {
        let n = self.pixels.len();
        assert(self.width * self.height <= self.width * self.height * 4) by (nonlinear_arith);
        let mut image = BinaryImage::new_w_h(self.width, self.height);
        let mut y: usize = 0;
        while y < self.height
            invariant
                y <= self.height,
                self.wf(),
                image.wf(),
                image.width == self.width,
                image.height == self.height,
                forall|c: Color| call_requires(f, (c,)),
                forall|x2: int, y2: int|
                    0 <= x2 < self.width && 0 <= y2 < y ==> call_ensures(
                        f,
                        (self.spec_get(x2, y2),),
                        #[trigger] image.spec_get(x2, y2),
                    ),
            decreases self.height - y,
        {
            let mut x: usize = 0;
            while x < self.width
                invariant
                    x <= self.width,
                    y < self.height,
                    self.wf(),
                    image.wf(),
                    image.width == self.width,
                    image.height == self.height,
                    forall|c: Color| call_requires(f, (c,)),
                    forall|x2: int, y2: int|
                        0 <= x2 < self.width && (0 <= y2 < y || (y2 == y && x2 < x))
                            ==> call_ensures(
                            f,
                            (self.spec_get(x2, y2),),
                            #[trigger] image.spec_get(x2, y2),
                        ),
                decreases self.width - x,
            {
                proof {
                    self.lemma_in_store(x as int, y as int);
                    image.lemma_in_store(x as int, y as int);
                }
                let v = f(self.get_pixel(x, y));
                image.set_pixel(x, y, v);
                x += 1;
            }
            y += 1;
        }
        image
    }
}

} // verus!
