//! Pixel-wise operations on binary images.

use vstd::prelude::*;

use crate::bits::bits;
use crate::bits::bitvec_from_bytes;
use crate::bits::bitvec_get;
use crate::bits::bitvec_len;
use crate::bits::bitvec_to_bytes;
use crate::bits::byte_bit;
use crate::bits::packs;
use crate::bits::unpack_bits;
use crate::grid::cell_index;
use crate::image::BinaryImage;

verus! {

/// How to combine two bits.
#[derive(Clone, Copy)]
enum BitOp {
    Xor,
    Or,
    And,
}

/// The result of an operation on two bits.
spec fn op_bit(op: BitOp, a: bool, b: bool) -> bool {
    match op {
        BitOp::Xor => a != b,
        BitOp::Or => a || b,
        BitOp::And => a && b,
    }
}

/// The complement of a byte has the complement of each of its bits.
proof fn lemma_not_bits(b: u8, k: int)
    requires
        0 <= k < 8,
    ensures
        byte_bit(!b, k) == !byte_bit(b, k),
{
    let s = (7 - k) as u8;
    assert(((!b) >> s) & 1u8 == 1u8 <==> !((b >> s) & 1u8 == 1u8)) by (bit_vector)
        requires
            s < 8,
    ;
}

/// A bit of a combination of two bytes is the combination of their bits.
proof fn lemma_op_bits(a: u8, b: u8, k: int)
    requires
        0 <= k < 8,
    ensures
        byte_bit(a ^ b, k) == (byte_bit(a, k) != byte_bit(b, k)),
        byte_bit(a | b, k) == (byte_bit(a, k) || byte_bit(b, k)),
        byte_bit(a & b, k) == (byte_bit(a, k) && byte_bit(b, k)),
{
    let s = (7 - k) as u8;
    assert((((a ^ b) >> s) & 1u8 == 1u8) <==> (((a >> s) & 1u8 == 1u8) != ((b >> s) & 1u8 == 1u8)))
        by (bit_vector)
        requires
            s < 8,
    ;
    assert((((a | b) >> s) & 1u8 == 1u8) <==> (((a >> s) & 1u8 == 1u8) || ((b >> s) & 1u8 == 1u8)))
        by (bit_vector)
        requires
            s < 8,
    ;
    assert((((a & b) >> s) & 1u8 == 1u8) <==> (((a >> s) & 1u8 == 1u8) && ((b >> s) & 1u8 == 1u8)))
        by (bit_vector)
        requires
            s < 8,
    ;
}

/// How many of the first `n` positions hold different bits in `a` and `b`.
pub open spec fn count_differing(a: Seq<bool>, b: Seq<bool>, n: int) -> int
    decreases n,
{
    if n <= 0 {
        0
    } else {
        count_differing(a, b, n - 1) + if a[n - 1] != b[n - 1] {
            1int
        } else {
            0int
        }
    }
}

/// How many of the lowest `n` bits of `i` are set.
pub open spec fn spec_popcount(i: u32, n: int) -> int
    decreases n,
{
    if n <= 0 {
        0
    } else {
        spec_popcount(i, n - 1) + if (i >> ((n - 1) as u32)) & 1u32 == 1u32 {
            1int
        } else {
            0int
        }
    }
}

/// Does a round brush of radius `ss` that is put down at a pixel reach the
/// pixel `dx` to the right of it and `dy` below it?
pub open spec fn within_brush(dx: int, dy: int, ss: int) -> bool {
    dx * dx + dy * dy < ss * ss
}

/// Is the pixel `(x, y)` of the widened image reached by the brush from
/// one of the first `n` pixels of `image` that is set? The widened image
/// has a margin of `ss` on every side.
pub open spec fn brushed(image: &BinaryImage, ss: int, x: int, y: int, n: int) -> bool {
    exists|px: int, py: int|
        image.in_bounds(px, py) && cell_index(px, py, image.width as int) < n
            && #[trigger] image.spec_get(px, py) && within_brush(x - ss - px, y - ss - py, ss)
}

/// What the brush reaches lies less than its radius away along each axis.
pub proof fn lemma_brush_reach(dx: int, dy: int, ss: int)
    requires
        0 <= ss,
        within_brush(dx, dy, ss),
    ensures
        -ss < dx < ss,
        -ss < dy < ss,
{
    assert(-ss < dx < ss) by (nonlinear_arith)
        requires
            0 <= ss,
            dx * dx + dy * dy < ss * ss,
    ;
    assert(-ss < dy < ss) by (nonlinear_arith)
        requires
            0 <= ss,
            dx * dx + dy * dy < ss * ss,
    ;
}

/// Sets the pixels that a brush of radius `ss` reaches from `(cx, cy)`.
pub(crate) fn stamp(image: &mut BinaryImage, cx: usize, cy: usize, ss: i64)
    requires
        old(image).wf(),
        0 <= ss <= u32::MAX,
        ss <= cx,
        ss <= cy,
        cx + ss <= old(image).width,
        cy + ss <= old(image).height,
    ensures
        final(image).wf(),
        final(image).width == old(image).width,
        final(image).height == old(image).height,
        final(image).spec_len() == old(image).spec_len(),
        forall|x: int, y: int|
            old(image).in_bounds(x, y) ==> #[trigger] final(image).spec_get(x, y) == (old(
                image,
            ).spec_get(x, y) || within_brush(x - cx, y - cy, ss as int)),
{
    let ghost before = *image;
    let mut yy: i64 = -ss;
    while yy < ss
        invariant
            image.wf(),
            before.wf(),
            image.width == before.width,
            image.height == before.height,
            image.spec_len() == before.spec_len(),
            0 <= ss <= u32::MAX,
            ss <= cx,
            ss <= cy,
            cx + ss <= image.width,
            cy + ss <= image.height,
            -ss <= yy <= ss,
            forall|x: int, y: int|
                before.in_bounds(x, y) ==> #[trigger] image.spec_get(x, y) == (before.spec_get(x, y)
                    || (within_brush(x - cx, y - cy, ss as int) && -ss <= x - cx < ss && -ss <= y
                    - cy < yy)),
        decreases ss - yy,
    {
        let mut xx: i64 = -ss;
        while xx < ss
            invariant
                image.wf(),
                before.wf(),
                image.width == before.width,
                image.height == before.height,
                image.spec_len() == before.spec_len(),
                0 <= ss <= u32::MAX,
                ss <= cx,
                ss <= cy,
                cx + ss <= image.width,
                cy + ss <= image.height,
                -ss <= yy < ss,
                -ss <= xx <= ss,
                forall|x: int, y: int|
                    before.in_bounds(x, y) ==> #[trigger] image.spec_get(x, y) == (before.spec_get(
                        x,
                        y,
                    ) || (within_brush(x - cx, y - cy, ss as int) && -ss <= x - cx < ss && -ss <= y
                        - cy && (y - cy < yy || (y - cy == yy && x - cx < xx)))),
            decreases ss - xx,
        {
            assert(0 <= xx * xx <= 0x1_0000_0000_0000_0000 && 0 <= yy * yy
                <= 0x1_0000_0000_0000_0000 && 0 <= ss * ss <= 0x1_0000_0000_0000_0000)
                by (nonlinear_arith)
                requires
                    -0x1_0000_0000 <= xx <= 0x1_0000_0000,
                    -0x1_0000_0000 <= yy <= 0x1_0000_0000,
                    0 <= ss <= 0x1_0000_0000,
            ;
            let n: i128 = (xx as i128) * (xx as i128) + (yy as i128) * (yy as i128);
            if n < (ss as i128) * (ss as i128) {
                let px: usize = (cx as i128 + xx as i128) as usize;
                let py: usize = (cy as i128 + yy as i128) as usize;
                proof {
                    image.lemma_in_store(px as int, py as int);
                }
                image.set_pixel(px, py, true);
            }
            xx += 1;
        }
        yy += 1;
    }
    proof {
        assert forall|x: int, y: int| before.in_bounds(x, y) implies #[trigger] image.spec_get(x, y)
            == (before.spec_get(x, y) || within_brush(x - cx, y - cy, ss as int)) by {
            if within_brush(x - cx, y - cy, ss as int) {
                lemma_brush_reach(x - cx, y - cy, ss as int);
            }
        }
    }
}

/// The pixels that the brush reaches from the first pixels of an image,
/// after one more pixel.
proof fn lemma_brushed_step(image: &BinaryImage, ss: int, x: int, y: int, px: int, py: int)
    requires
        image.in_bounds(px, py),
    ensures
        brushed(image, ss, x, y, cell_index(px, py, image.width as int) + 1) == (brushed(
            image,
            ss,
            x,
            y,
            cell_index(px, py, image.width as int),
        ) || (image.spec_get(px, py) && within_brush(x - ss - px, y - ss - py, ss))),
{
    let w = image.width as int;
    let n = cell_index(px, py, w);
    if brushed(image, ss, x, y, n + 1) {
        let (qx, qy) = choose|qx: int, qy: int|
            image.in_bounds(qx, qy) && cell_index(qx, qy, w) < n + 1 && #[trigger] image.spec_get(
                qx,
                qy,
            ) && within_brush(x - ss - qx, y - ss - qy, ss);
        if cell_index(qx, qy, w) == n {
            crate::grid::lemma_cell_index_injective(qx, qy, px, py, w);
        }
    }
}

impl BinaryImage {
    /// The store, bit by bit, is the combination of the stores of the two
    /// images, as far as both reach.
    fn combine(&self, other: &BinaryImage, op: BitOp) -> (image: BinaryImage)
        requires
            self.width == other.width,
            self.height == other.height,
            self.spec_len() + 7 <= usize::MAX,
        ensures
            image.width == self.width,
            image.height == self.height,
            image.spec_len() >= self.spec_len(),
            forall|j: int|
                0 <= j < self.spec_len() && j < other.spec_len() ==> #[trigger] bits(
                    image.pixels,
                )[j] == op_bit(op, bits(self.pixels)[j], bits(other.pixels)[j]),
    {
        let n = bitvec_len(&self.pixels);
        let mut i = bitvec_to_bytes(&self.pixels);
        let u = bitvec_to_bytes(&other.pixels);
        let ghost mine = i@;
        let len = if i.len() < u.len() {
            i.len()
        } else {
            u.len()
        };
        let mut k: usize = 0;
        while k < len
            invariant
                k <= len,
                len <= i@.len(),
                len <= u@.len(),
                i@.len() == mine.len(),
                forall|t: int|
                    0 <= t < k ==> #[trigger] i@[t] == (match op {
                        BitOp::Xor => mine[t] ^ u@[t],
                        BitOp::Or => mine[t] | u@[t],
                        BitOp::And => mine[t] & u@[t],
                    }),
                forall|t: int| k <= t < i@.len() ==> #[trigger] i@[t] == mine[t],
            decreases len - k,
        {
            let a = i[k];
            let b = u[k];
            let c = match op {
                BitOp::Xor => a ^ b,
                BitOp::Or => a | b,
                BitOp::And => a & b,
            };
            i.set(k, c);
            k += 1;
        }
        let image = BinaryImage {
            pixels: bitvec_from_bytes(i.as_slice()),
            width: self.width,
            height: self.height,
        };
        proof {
            assert forall|j: int| 0 <= j < self.spec_len() && j < other.spec_len() implies #[trigger] bits(
                image.pixels,
            )[j] == op_bit(op, bits(self.pixels)[j], bits(other.pixels)[j]) by {
                let t = j / 8;
                let r = j % 8;
                assert(t < mine.len() && t < u@.len());
                assert(byte_bit(mine[j / 8], j % 8) == bits(self.pixels)[j]);
                assert(byte_bit(u@[j / 8], j % 8) == bits(other.pixels)[j]);
                lemma_op_bits(mine[t], u@[t], r);
                assert(bits(image.pixels)[j] == byte_bit(i@[j / 8], j % 8));
            }
        }
        image
    }

    /// Combines the stores of the two images byte by byte: `operator` is
    /// given a byte of this image and the byte of the other image in the
    /// same place, eight pixels each with the first in the most
    /// significant bit, and returns the byte of the result.
    pub fn operation<F: Fn(u8, u8) -> u8>(&self, other: &BinaryImage, operator: F) -> (image:
        BinaryImage)
        requires
            self.width == other.width,
            self.height == other.height,
            self.spec_len() + 7 <= usize::MAX,
            forall|a: u8, b: u8| call_requires(operator, (a, b)),
        ensures
            image.width == self.width,
            image.height == self.height,
            exists|mine: Seq<u8>, theirs: Seq<u8>, out: Seq<u8>|
                {
                    &&& packs(mine, bits(self.pixels))
                    &&& packs(theirs, bits(other.pixels))
                    &&& out.len() == mine.len()
                    &&& bits(image.pixels) == unpack_bits(out)
                    &&& forall|t: int|
                        0 <= t < mine.len() && t < theirs.len() ==> call_ensures(
                            operator,
                            (mine[t], theirs[t]),
                            #[trigger] out[t],
                        )
                    &&& forall|t: int|
                        theirs.len() <= t < mine.len() ==> #[trigger] out[t] == mine[t]
                },
    {
        let n = bitvec_len(&self.pixels);
        let mut i = bitvec_to_bytes(&self.pixels);
        let u = bitvec_to_bytes(&other.pixels);
        let ghost mine = i@;
        let len = if i.len() < u.len() {
            i.len()
        } else {
            u.len()
        };
        let mut k: usize = 0;
        while k < len
            invariant
                k <= len,
                len <= i@.len(),
                len <= u@.len(),
                len == i@.len() || len == u@.len(),
                i@.len() == mine.len(),
                forall|a: u8, b: u8| call_requires(operator, (a, b)),
                forall|t: int|
                    0 <= t < k ==> call_ensures(operator, (mine[t], u@[t]), #[trigger] i@[t]),
                forall|t: int| k <= t < i@.len() ==> #[trigger] i@[t] == mine[t],
            decreases len - k,
        {
            let c = operator(i[k], u[k]);
            i.set(k, c);
            k += 1;
        }
        let image = BinaryImage {
            pixels: bitvec_from_bytes(i.as_slice()),
            width: self.width,
            height: self.height,
        };
        proof {
            let out = i@;
            let theirs = u@;
            assert(packs(mine, bits(self.pixels)));
            assert(packs(theirs, bits(other.pixels)));
            assert(bits(image.pixels) == unpack_bits(out));
            assert forall|t: int| 0 <= t < mine.len() && t < theirs.len() implies call_ensures(
                operator,
                (mine[t], theirs[t]),
                #[trigger] out[t],
            ) by {
                assert(t < len);
            }
        }
        image
    }

    /// The image with every pixel inverted. The store is padded to whole
    /// bytes, and the bits of the padding are set.
    pub fn negative(&self) -> (image: BinaryImage)
        requires
            self.spec_len() + 7 <= usize::MAX,
        ensures
            image.width == self.width,
            image.height == self.height,
            image.spec_len() >= self.spec_len(),
            forall|j: int|
                0 <= j < self.spec_len() ==> #[trigger] bits(image.pixels)[j] == !bits(
                    self.pixels,
                )[j],
            self.wf() ==> image.wf() && forall|x: int, y: int|
                self.in_bounds(x, y) ==> #[trigger] image.spec_get(x, y) == !self.spec_get(x, y),
    {
        let n = bitvec_len(&self.pixels);
        let i = bitvec_to_bytes(&self.pixels);
        let mut ii: Vec<u8> = Vec::new();
        let mut k: usize = 0;
        while k < i.len()
            invariant
                k <= i@.len(),
                ii@.len() == k,
                forall|t: int| 0 <= t < k ==> #[trigger] ii@[t] == !i@[t],
            decreases i@.len() - k,
        {
            ii.push(!i[k]);
            k += 1;
        }
        let image = BinaryImage {
            pixels: bitvec_from_bytes(ii.as_slice()),
            width: self.width,
            height: self.height,
        };
        proof {
            assert forall|j: int| 0 <= j < self.spec_len() implies #[trigger] bits(image.pixels)[j]
                == !bits(self.pixels)[j] by {
                assert(byte_bit(i@[j / 8], j % 8) == bits(self.pixels)[j]);
                lemma_not_bits(i@[j / 8], j % 8);
                assert(bits(image.pixels)[j] == byte_bit(ii@[j / 8], j % 8));
            }
            if self.wf() {
                assert forall|x: int, y: int| self.in_bounds(x, y) implies #[trigger] image.spec_get(
                    x,
                    y,
                ) == !self.spec_get(x, y) by {
                    self.lemma_in_store(x, y);
                }
            }
        }
        image
    }

    /// The pixels that are set in exactly one of the two images.
    pub fn diff(&self, other: &BinaryImage) -> (image: BinaryImage)
        requires
            self.width == other.width,
            self.height == other.height,
            self.wf(),
            other.wf(),
            self.spec_len() + 7 <= usize::MAX,
        ensures
            image.wf(),
            image.width == self.width,
            image.height == self.height,
            forall|x: int, y: int|
                self.in_bounds(x, y) ==> #[trigger] image.spec_get(x, y) == (self.spec_get(x, y)
                    != other.spec_get(x, y)),
    {
        let image = self.combine(other, BitOp::Xor);
        proof {
            assert forall|x: int, y: int| self.in_bounds(x, y) implies #[trigger] image.spec_get(
                x,
                y,
            ) == (self.spec_get(x, y) != other.spec_get(x, y)) by {
                self.lemma_in_store(x, y);
                other.lemma_in_store(x, y);
            }
        }
        image
    }

    /// The pixels that are set in one of the two images or in both.
    pub fn union(&self, other: &BinaryImage) -> (image: BinaryImage)
        requires
            self.width == other.width,
            self.height == other.height,
            self.wf(),
            other.wf(),
            self.spec_len() + 7 <= usize::MAX,
        ensures
            image.wf(),
            image.width == self.width,
            image.height == self.height,
            forall|x: int, y: int|
                self.in_bounds(x, y) ==> #[trigger] image.spec_get(x, y) == (self.spec_get(x, y)
                    || other.spec_get(x, y)),
    {
        let image = self.combine(other, BitOp::Or);
        proof {
            assert forall|x: int, y: int| self.in_bounds(x, y) implies #[trigger] image.spec_get(
                x,
                y,
            ) == (self.spec_get(x, y) || other.spec_get(x, y)) by {
                self.lemma_in_store(x, y);
                other.lemma_in_store(x, y);
            }
        }
        image
    }

    /// The pixels that are set in both images.
    pub fn intersect(&self, other: &BinaryImage) -> (image: BinaryImage)
        requires
            self.width == other.width,
            self.height == other.height,
            self.wf(),
            other.wf(),
            self.spec_len() + 7 <= usize::MAX,
        ensures
            image.wf(),
            image.width == self.width,
            image.height == self.height,
            forall|x: int, y: int|
                self.in_bounds(x, y) ==> #[trigger] image.spec_get(x, y) == (self.spec_get(x, y)
                    && other.spec_get(x, y)),
    {
        let image = self.combine(other, BitOp::And);
        proof {
            assert forall|x: int, y: int| self.in_bounds(x, y) implies #[trigger] image.spec_get(
                x,
                y,
            ) == (self.spec_get(x, y) && other.spec_get(x, y)) by {
                self.lemma_in_store(x, y);
                other.lemma_in_store(x, y);
            }
        }
        image
    }

    /// The number of positions at which the stores of the two images
    /// differ.
    pub fn diff_and_count(&self, other: &BinaryImage) -> (count: usize)
        requires
            self.width == other.width,
            self.height == other.height,
            self.spec_len() == other.spec_len(),
        ensures
            count == count_differing(
                bits(self.pixels),
                bits(other.pixels),
                self.spec_len() as int,
            ),
    {
        let n = bitvec_len(&self.pixels);
        let mut count: usize = 0;
        let mut j: usize = 0;
        while j < n
            invariant
                j <= n,
                n == self.spec_len(),
                n == other.spec_len(),
                count == count_differing(bits(self.pixels), bits(other.pixels), j as int),
                count <= j,
            decreases n - j,
        {
            let a = bitvec_get(&self.pixels, j);
            let b = bitvec_get(&other.pixels, j);
            if a != b {
                count += 1;
            }
            j += 1;
        }
        count
    }

    /// The number of set bits of `i`.
    pub fn popcount(i: u32) -> (n: u32)
        ensures
            n == spec_popcount(i, 32),
    {
        let mut n: u32 = 0;
        let mut k: u32 = 0;
        while k < 32
            invariant
                k <= 32,
                n == spec_popcount(i, k as int),
                n <= k,
            decreases 32 - k,
        {
            if (i >> k) & 1 == 1 {
                n += 1;
            }
            k += 1;
        }
        n
    }

    /// Widens the set pixels with a round brush `s` across. The result has
    /// a margin of half of `s` on every side, and in it a pixel is set
    /// where the brush, put down at a set pixel, reaches it.
    pub fn stroke(&self, s: u32) -> (image: BinaryImage)
        requires
            self.wf(),
            (self.width + s) * (self.height + s) <= usize::MAX,
        ensures
            image.wf(),
            image.width == self.width + s,
            image.height == self.height + s,
            forall|x: int, y: int|
                image.in_bounds(x, y) ==> #[trigger] image.spec_get(x, y) == brushed(
                    self,
                    (s / 2) as int,
                    x,
                    y,
                    self.width * self.height,
                ),
    {
        assert(self.width + s <= (self.width + s) * (self.height + s) || self.height + s == 0)
            by (nonlinear_arith);
        assert(self.height + s <= (self.width + s) * (self.height + s) || self.width + s == 0)
            by (nonlinear_arith);
        let mut new_image = BinaryImage::new_w_h(self.width + s as usize, self.height + s as usize);
        let ss: i64 = (s / 2) as i64;
        let ghost w = self.width as int;
        let mut y: usize = 0;
        while y < self.height
            invariant
                self.wf(),
                new_image.wf(),
                new_image.width == self.width + s,
                new_image.height == self.height + s,
                ss == s / 2,
                w == self.width,
                y <= self.height,
                forall|x2: int, y2: int|
                    new_image.in_bounds(x2, y2) ==> #[trigger] new_image.spec_get(x2, y2)
                        == brushed(self, ss as int, x2, y2, y * w),
            decreases self.height - y,
        {
            let mut x: usize = 0;
            assert(cell_index(0, y as int, w) == y * w);
            while x < self.width
                invariant
                    self.wf(),
                    new_image.wf(),
                    new_image.width == self.width + s,
                    new_image.height == self.height + s,
                    ss == s / 2,
                    w == self.width,
                    y < self.height,
                    x <= self.width,
                    forall|x2: int, y2: int|
                        new_image.in_bounds(x2, y2) ==> #[trigger] new_image.spec_get(x2, y2)
                            == brushed(self, ss as int, x2, y2, cell_index(x as int, y as int, w)),
                decreases self.width - x,
            {
                proof {
                    self.lemma_in_store(x as int, y as int);
                }
                let ghost before = new_image;
                let v = self.get_pixel(x, y);
                if v {
                    stamp(&mut new_image, x + ss as usize, y + ss as usize, ss);
                }
                proof {
                    let n = cell_index(x as int, y as int, w);
                    assert(cell_index(x + 1, y as int, w) == n + 1);
                    assert forall|x2: int, y2: int|
                        new_image.in_bounds(x2, y2) implies #[trigger] new_image.spec_get(x2, y2)
                        == brushed(self, ss as int, x2, y2, n + 1) by {
                        lemma_brushed_step(self, ss as int, x2, y2, x as int, y as int);
                    }
                }
                x += 1;
            }
            proof {
                assert(cell_index(self.width as int, y as int, w) == (y + 1) * w)
                    by (nonlinear_arith)
                    requires
                        w == self.width,
                        cell_index(self.width as int, y as int, w) == y * w + self.width,
                ;
            }
            y += 1;
        }
        proof {
            assert(self.height * w == self.width * self.height) by (nonlinear_arith)
                requires
                    w == self.width,
            ;
        }
        new_image
    }
}

} // verus!
