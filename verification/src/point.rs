//! Points in the plane.

use vstd::prelude::*;
use vstd::std_specs::ops::AddSpecImpl;
use vstd::std_specs::ops::NegSpecImpl;
use vstd::std_specs::ops::SubSpecImpl;

use crate::text::int_digits;
use crate::text::push_char;
use crate::text::push_int;
use crate::text::push_str;

verus! {

/// Generic point in 2D space.
#[derive(Debug, Clone, Copy, PartialEq, Eq, Hash, Structural)]
pub struct Point2<T> {
    pub x: T,
    pub y: T,
}

/// 2D point with `u8` components.
pub type PointU8 = Point2<u8>;

/// 2D point with `usize` components.
pub type PointUsize = Point2<usize>;

/// 2D point with `i32` components.
pub type PointI32 = Point2<i32>;

/// True when `v` is representable as an `i32`.
pub open spec fn fits_i32(v: int) -> bool {
    i32::MIN <= v <= i32::MAX
}

impl<T> Point2<T> {
    pub fn new(x: T, y: T) -> (p: Self)
        ensures
            p.x == x,
            p.y == y,
    {
        Self { x, y }
    }
}

impl Default for Point2<i32> {
    fn default() -> (p: Self)
        ensures
            p.x == 0,
            p.y == 0,
    {
        Self { x: 0, y: 0 }
    }
}

impl Point2<i32> {
    /// The dot product as a mathematical integer.
    pub open spec fn spec_dot(self, v: Self) -> int {
        self.x * v.x + self.y * v.y
    }

    /// The quarter turn of `self` about `origin`, in mathematical integers,
    /// for a coordinate system whose origin is at the top left.
    pub open spec fn spec_rotate_90deg(self, origin: Self, clockwise: bool) -> (int, int) {
        if clockwise {
            (origin.x - (self.y - origin.y), origin.y + (self.x - origin.x))
        } else {
            (origin.x + (self.y - origin.y), origin.y - (self.x - origin.x))
        }
    }

    /// Dot product.
    pub fn dot(self, v: Self) -> (d: i32)
        requires
            fits_i32(self.x * v.x),
            fits_i32(self.y * v.y),
            fits_i32(self.spec_dot(v)),
        ensures
            d == self.spec_dot(v),
    {
        self.x * v.x + self.y * v.y
    }

    /// Moves the point by `vector`.
    pub fn translate(self, vector: Self) -> (p: Self)
        requires
            fits_i32(self.x + vector.x),
            fits_i32(self.y + vector.y),
        ensures
            p.x == self.x + vector.x,
            p.y == self.y + vector.y,
    {
        Self { x: self.x + vector.x, y: self.y + vector.y }
    }

    /// Rotates the point by a quarter turn about `origin`.
    pub fn rotate_90deg(&self, origin: Self, clockwise: bool) -> (p: Self)
        requires
            fits_i32(self.x - origin.x),
            fits_i32(self.y - origin.y),
            fits_i32(-(self.x - origin.x)),
            fits_i32(-(self.y - origin.y)),
            fits_i32(self.spec_rotate_90deg(origin, clockwise).0),
            fits_i32(self.spec_rotate_90deg(origin, clockwise).1),
        ensures
            (p.x as int, p.y as int) == self.spec_rotate_90deg(origin, clockwise),
    {
        let o = origin;
        if !clockwise {
            Self { x: (self.y - o.y) + o.x, y: -(self.x - o.x) + o.y }
        } else {
            Self { x: -(self.y - o.y) + o.x, y: (self.x - o.x) + o.y }
        }
    }

    /// The same point with unsigned components.
    pub fn to_point_usize(&self) -> (p: PointUsize)
        requires
            self.x >= 0,
            self.y >= 0,
        ensures
            p.x == self.x,
            p.y == self.y,
    {
        PointUsize { x: self.x as usize, y: self.y as usize }
    }
}

impl core::ops::Neg for Point2<i32> {
    type Output = Self;

    fn neg(self) -> (r: Self) {
        Self { x: -self.x, y: -self.y }
    }
}

impl NegSpecImpl for Point2<i32> {
    open spec fn obeys_neg_spec() -> bool {
        true
    }

    open spec fn neg_req(self) -> bool {
        self.x > i32::MIN && self.y > i32::MIN
    }

    open spec fn neg_spec(self) -> Self {
        Point2 { x: (-self.x) as i32, y: (-self.y) as i32 }
    }
}

impl core::ops::Add for Point2<i32> {
    type Output = Self;

    fn add(self, other: Self) -> (r: Self) {
        Self { x: self.x + other.x, y: self.y + other.y }
    }
}

impl AddSpecImpl for Point2<i32> {
    open spec fn obeys_add_spec() -> bool {
        true
    }

    open spec fn add_req(self, other: Self) -> bool {
        fits_i32(self.x + other.x) && fits_i32(self.y + other.y)
    }

    open spec fn add_spec(self, other: Self) -> Self {
        Point2 { x: (self.x + other.x) as i32, y: (self.y + other.y) as i32 }
    }
}

impl core::ops::Sub for Point2<i32> {
    type Output = Self;

    fn sub(self, other: Self) -> (r: Self) {
        Self { x: self.x - other.x, y: self.y - other.y }
    }
}

impl SubSpecImpl for Point2<i32> {
    open spec fn obeys_sub_spec() -> bool {
        true
    }

    open spec fn sub_req(self, other: Self) -> bool {
        fits_i32(self.x - other.x) && fits_i32(self.y - other.y)
    }

    open spec fn sub_spec(self, other: Self) -> Self {
        Point2 { x: (self.x - other.x) as i32, y: (self.y - other.y) as i32 }
    }
}

/// Anything that renders itself as a fragment of an SVG path.
pub trait ToSvgString {
    /// The characters that `to_svg_string` produces.
    spec fn spec_svg_string(&self, precision: Option<u32>) -> Seq<char>;

    fn to_svg_string(&self, precision: Option<u32>) -> (s: String)
        ensures
            s@ == self.spec_svg_string(precision),
    ;
}

/// A number that renders itself with a chosen count of decimals.
pub trait NumberFormat: Sized {
    /// The characters that `number_format` produces.
    spec fn spec_number_format(num: Self, precision: Option<u32>) -> Seq<char>;

    fn number_format(num: Self, precision: Option<u32>) -> (s: String)
        ensures
            s@ == Self::spec_number_format(num, precision),
    ;
}

impl NumberFormat for i32 {
    /// An integer is written in full whatever the precision.
    open spec fn spec_number_format(num: Self, precision: Option<u32>) -> Seq<char> {
        int_digits(num as int)
    }

    fn number_format(num: Self, _precision: Option<u32>) -> (s: String) {
        let mut s = String::new();
        push_int(&mut s, num as i64);
        s
    }
}

impl<T: Copy + NumberFormat> Point2<T> {
    /// Renders one coordinate.
    pub fn number_format(num: T, precision: Option<u32>) -> (s: String)
        ensures
            s@ == T::spec_number_format(num, precision),
    {
        T::number_format(num, precision)
    }
}

impl<T: Copy + NumberFormat> ToSvgString for Point2<T> {
    /// The two coordinates with a comma between them.
    open spec fn spec_svg_string(&self, precision: Option<u32>) -> Seq<char> {
        T::spec_number_format(self.x, precision) + seq![','] + T::spec_number_format(
            self.y,
            precision,
        )
    }

    fn to_svg_string(&self, precision: Option<u32>) -> (s: String) {
        let mut s = T::number_format(self.x, precision);
        push_char(&mut s, ',');
        let t = T::number_format(self.y, precision);
        push_str(&mut s, t.as_str());
        assert(s@ =~= self.spec_svg_string(precision));
        s
    }
}

} // verus!
