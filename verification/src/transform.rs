//! Transformations of coordinates.

use vstd::prelude::*;

use crate::bound::BoundingRect;
use crate::point::fits_i32;
use crate::point::PointI32;

verus! {

/// Transformation of coordinate in space.
pub trait Transform {
    /// The points that can be transformed.
    spec fn can_transform(&self, vec: &PointI32) -> bool;

    /// The transformed point.
    spec fn spec_transform(&self, vec: &PointI32) -> PointI32;

    fn transform(&self, vec: &PointI32) -> (p: PointI32)
        requires
            self.can_transform(vec),
        ensures
            p == self.spec_transform(vec),
    ;

    fn transform_rect(&self, rect: &BoundingRect) -> (r: BoundingRect)
        requires
            self.can_transform(&PointI32 { x: rect.left, y: rect.top }),
            self.can_transform(&PointI32 { x: rect.right, y: rect.bottom }),
        ensures
            r.left == self.spec_transform(&PointI32 { x: rect.left, y: rect.top }).x,
            r.top == self.spec_transform(&PointI32 { x: rect.left, y: rect.top }).y,
            r.right == self.spec_transform(&PointI32 { x: rect.right, y: rect.bottom }).x,
            r.bottom == self.spec_transform(&PointI32 { x: rect.right, y: rect.bottom }).y,
    ;
}

/// The transform that takes the rect `a` to the rect `b`: a scaling and a
/// shift along each axis.
pub struct RectangularTransform {
    pub a: BoundingRect,
    pub b: BoundingRect,
}

/// The quotient of `n` by `d`, rounded towards zero.
pub open spec fn div_trunc(n: int, d: int) -> int {
    if n >= 0 {
        if d > 0 {
            n / d
        } else {
            -(n / (-d))
        }
    } else {
        if d > 0 {
            -((-n) / d)
        } else {
            (-n) / (-d)
        }
    }
}

/// The coordinate `v` taken from the interval that starts at `a0` and is
/// `aw` long to the interval that starts at `b0` and is `bw` long.
pub open spec fn spec_scale(v: int, a0: int, aw: int, b0: int, bw: int) -> int {
    div_trunc((v - a0) * bw, aw) + b0
}

pub(crate) fn div_trunc_exec(n: i128, d: i128) -> (q: i128)
    requires
        d != 0,
        i128::MIN < n,
        i128::MIN < d,
    ensures
        q == div_trunc(n as int, d as int),
{
    if n >= 0 {
        if d > 0 {
            n / d
        } else {
            -(n / (-d))
        }
    } else {
        if d > 0 {
            -((-n) / d)
        } else {
            (-n) / (-d)
        }
    }
}

fn scale(v: i32, a0: i32, aw: i64, b0: i32, bw: i64) -> (r: i32)
    requires
        aw != 0,
        -0x1_0000_0000 <= aw <= 0x1_0000_0000,
        -0x1_0000_0000 <= bw <= 0x1_0000_0000,
        fits_i32(spec_scale(v as int, a0 as int, aw as int, b0 as int, bw as int)),
    ensures
        r == spec_scale(v as int, a0 as int, aw as int, b0 as int, bw as int),
{
    let d: i128 = v as i128 - a0 as i128;
    assert(-0x1_0000_0000_0000_0000 <= d * bw <= 0x1_0000_0000_0000_0000) by (nonlinear_arith)
        requires
            -0x1_0000_0000 <= d <= 0x1_0000_0000,
            -0x1_0000_0000 <= bw <= 0x1_0000_0000,
    ;
    let n: i128 = d * (bw as i128);
    let q = div_trunc_exec(n, aw as i128);
    proof {
        let m = if n >= 0 {
            n as int
        } else {
            -(n as int)
        };
        let e = if aw > 0 {
            aw as int
        } else {
            -(aw as int)
        };
        vstd::arithmetic::div_mod::lemma_div_pos_is_pos(m, e);
        vstd::arithmetic::div_mod::lemma_div_is_ordered_by_denominator(m, 1, e);
    }
    (q + b0 as i128) as i32
}

impl Default for RectangularTransform {
    fn default() -> (t: Self)
        ensures
            t.a == BoundingRect::spec_zero(),
            t.b == BoundingRect::spec_zero(),
    {
        Self { a: BoundingRect::default(), b: BoundingRect::default() }
    }
}

impl RectangularTransform {
    /// The transform that changes nothing.
    pub fn new() -> (t: Self)
        ensures
            t.a == BoundingRect::spec_zero(),
            t.b == BoundingRect::spec_zero(),
    {
        Self { a: BoundingRect::default(), b: BoundingRect::default() }
    }

    pub fn new_rect_rect(a: BoundingRect, b: BoundingRect) -> (t: Self)
        ensures
            t.a == a,
            t.b == b,
    {
        Self { a, b }
    }

    /// The shift that takes the point `a` to the point `b`.
    pub fn new_point_point(a: PointI32, b: PointI32) -> (t: Self)
        requires
            a.x < i32::MAX,
            a.y < i32::MAX,
            b.x < i32::MAX,
            b.y < i32::MAX,
        ensures
            t.a == (BoundingRect { left: a.x, top: a.y, right: (a.x + 1) as i32, bottom: (a.y + 1) as i32 }),
            t.b == (BoundingRect { left: b.x, top: b.y, right: (b.x + 1) as i32, bottom: (b.y + 1) as i32 }),
    {
        Self {
            a: BoundingRect::new_x_y_w_h(a.x, a.y, 1, 1),
            b: BoundingRect::new_x_y_w_h(b.x, b.y, 1, 1),
        }
    }

    /// The shift that takes the origin to the point `b`.
    pub fn new_point(b: &PointI32) -> (t: Self)
        requires
            b.x < i32::MAX,
            b.y < i32::MAX,
        ensures
            t.a == (BoundingRect { left: 0, top: 0, right: 1, bottom: 1 }),
            t.b == (BoundingRect { left: b.x, top: b.y, right: (b.x + 1) as i32, bottom: (b.y + 1) as i32 }),
    {
        Self {
            a: BoundingRect::new_x_y_w_h(0, 0, 1, 1),
            b: BoundingRect::new_x_y_w_h(b.x, b.y, 1, 1),
        }
    }
}

impl Transform for RectangularTransform {
    /// Where one of the two rects is empty every point can be
    /// transformed; else the rect `a` must have a width and a height, and
    /// the result must fit.
    open spec fn can_transform(&self, vec: &PointI32) -> bool {
        self.a.spec_is_empty() || self.b.spec_is_empty() || {
            &&& self.a.spec_width() != 0
            &&& self.a.spec_height() != 0
            &&& fits_i32(
                spec_scale(
                    vec.x as int,
                    self.a.left as int,
                    self.a.spec_width(),
                    self.b.left as int,
                    self.b.spec_width(),
                ),
            )
            &&& fits_i32(
                spec_scale(
                    vec.y as int,
                    self.a.top as int,
                    self.a.spec_height(),
                    self.b.top as int,
                    self.b.spec_height(),
                ),
            )
        }
    }

    /// Where one of the two rects is empty the point stays; else each
    /// coordinate is scaled from `a` to `b`, rounding towards zero.
    open spec fn spec_transform(&self, vec: &PointI32) -> PointI32 {
        if self.a.spec_is_empty() || self.b.spec_is_empty() {
            *vec
        } else {
            PointI32 {
                x: spec_scale(
                    vec.x as int,
                    self.a.left as int,
                    self.a.spec_width(),
                    self.b.left as int,
                    self.b.spec_width(),
                ) as i32,
                y: spec_scale(
                    vec.y as int,
                    self.a.top as int,
                    self.a.spec_height(),
                    self.b.top as int,
                    self.b.spec_height(),
                ) as i32,
            }
        }
    }

    fn transform(&self, p: &PointI32) -> (r: PointI32) {
        if self.a.is_empty() || self.b.is_empty() {
            return *p;
        }
        let aw: i64 = self.a.right as i64 - self.a.left as i64;
        let ah: i64 = self.a.bottom as i64 - self.a.top as i64;
        let bw: i64 = self.b.right as i64 - self.b.left as i64;
        let bh: i64 = self.b.bottom as i64 - self.b.top as i64;
        PointI32 {
            x: scale(p.x, self.a.left, aw, self.b.left, bw),
            y: scale(p.y, self.a.top, ah, self.b.top, bh),
        }
    }

    fn transform_rect(&self, r: &BoundingRect) -> (t: BoundingRect) {
        let a = self.transform(&PointI32 { x: r.left, y: r.top });
        let b = self.transform(&PointI32 { x: r.right, y: r.bottom });
        BoundingRect { left: a.x, top: a.y, right: b.x, bottom: b.y }
    }
}

} // verus!
