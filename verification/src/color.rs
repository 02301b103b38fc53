//! Colour values and running sums of colours.

use vstd::prelude::*;

use crate::point::fits_i32;
use crate::text::hex_byte;
use crate::text::push_char;
use crate::text::push_hex_byte;

verus! {

/// A colour with channels that can be addressed by index.
pub trait ColorType {
    type ValueType;

    /// The value that `channel` returns.
    spec fn spec_channel(&self, c: usize) -> Option<Self::ValueType>;

    fn channel(&self, c: usize) -> (v: Option<Self::ValueType>)
        ensures
            v == self.spec_channel(c),
    ;
}

/// RGBA; each channel is 8 bit unsigned.
#[derive(Copy, Clone, PartialEq, Eq, Debug, Structural)]
pub struct Color {
    pub r: u8,
    pub g: u8,
    pub b: u8,
    pub a: u8,
}

/// Color names.
pub enum ColorName {
    Black,
    White,
    Red,
}

/// RGB; each channel is 32 bit signed.
#[derive(Copy, Clone, PartialEq, Eq, Debug, Structural)]
pub struct ColorI32 {
    pub r: i32,
    pub g: i32,
    pub b: i32,
}

/// RGBA; each channel is 32 bit unsigned, with the number of colours summed.
#[derive(Copy, Clone, PartialEq, Eq, Structural)]
pub struct ColorSum {
    pub r: u32,
    pub g: u32,
    pub b: u32,
    pub a: u32,
    pub counter: u32,
}

impl Default for Color {
    /// Transparent black.
    fn default() -> (c: Self)
        ensures
            c == Color::spec_transparent(),
    {
        Self { r: 0, g: 0, b: 0, a: 0 }
    }
}

impl Default for ColorI32 {
    fn default() -> (c: Self)
        ensures
            c == (ColorI32 { r: 0, g: 0, b: 0 }),
    {
        Self { r: 0, g: 0, b: 0 }
    }
}

impl Default for ColorSum {
    fn default() -> (s: Self)
        ensures
            s == ColorSum::spec_zero(),
    {
        Self { r: 0, g: 0, b: 0, a: 0, counter: 0 }
    }
}

impl Color {
    /// The colour whose four channels are zero.
    pub open spec fn spec_transparent() -> Self {
        Color { r: 0, g: 0, b: 0, a: 0 }
    }

    /// The opaque colour with the given channels.
    pub open spec fn spec_rgb(r: u8, g: u8, b: u8) -> Self {
        Color { r, g, b, a: 255 }
    }

    /// The colour of a name.
    pub open spec fn spec_color(name: ColorName) -> Self {
        match name {
            ColorName::Black => Self::spec_rgb(0, 0, 0),
            ColorName::White => Self::spec_rgb(255, 255, 255),
            ColorName::Red => Self::spec_rgb(255, 0, 0),
        }
    }

    /// The eight colours of the palette.
    pub open spec fn spec_palette(i: int) -> Self {
        if i == 0 {
            Self::spec_rgb(216, 51, 74)
        } else if i == 1 {
            Self::spec_rgb(255, 232, 96)
        } else if i == 2 {
            Self::spec_rgb(160, 212, 104)
        } else if i == 3 {
            Self::spec_rgb(72, 207, 173)
        } else if i == 4 {
            Self::spec_rgb(79, 193, 233)
        } else if i == 5 {
            Self::spec_rgb(93, 156, 236)
        } else if i == 6 {
            Self::spec_rgb(128, 103, 183)
        } else {
            Self::spec_rgb(172, 146, 236)
        }
    }

    /// `#RRGGBB` in upper-case hexadecimal.
    pub open spec fn spec_hex_string(self) -> Seq<char> {
        seq!['#'] + hex_byte(self.r) + hex_byte(self.g) + hex_byte(self.b)
    }

    /// An opaque colour.
    pub fn new(r: u8, g: u8, b: u8) -> (c: Self)
        ensures
            c == Self::spec_rgb(r, g, b),
    {
        Self::new_rgba(r, g, b, 255)
    }

    pub fn new_rgba(r: u8, g: u8, b: u8, a: u8) -> (c: Self)
        ensures
            c == (Color { r, g, b, a }),
    {
        Self { r, g, b, a }
    }

    pub fn color(name: &ColorName) -> (c: Self)
        ensures
            c == Self::spec_color(*name),
    {
        match name {
            ColorName::Black => Self::new(0, 0, 0),
            ColorName::White => Self::new(255, 255, 255),
            ColorName::Red => Self::new(255, 0, 0),
        }
    }

    /// The palette colour of `i`, the palette repeating every eight.
    pub fn get_palette_color(i: usize) -> (c: Self)
        ensures
            c == Self::spec_palette(i as int % 8),
    {
        let k: usize = i % 8;
        if k == 0 {
            Self::new(216, 51, 74)
        } else if k == 1 {
            Self::new(255, 232, 96)
        } else if k == 2 {
            Self::new(160, 212, 104)
        } else if k == 3 {
            Self::new(72, 207, 173)
        } else if k == 4 {
            Self::new(79, 193, 233)
        } else if k == 5 {
            Self::new(93, 156, 236)
        } else if k == 6 {
            Self::new(128, 103, 183)
        } else {
            Self::new(172, 146, 236)
        }
    }

    pub fn to_hex_string(&self) -> (s: String)
        ensures
            s@ == self.spec_hex_string(),
    {
        let mut s = String::new();
        push_char(&mut s, '#');
        push_hex_byte(&mut s, self.r);
        push_hex_byte(&mut s, self.g);
        push_hex_byte(&mut s, self.b);
        assert(s@ =~= self.spec_hex_string());
        s
    }

    pub fn to_color_i32(&self) -> (c: ColorI32)
        ensures
            c.r == self.r,
            c.g == self.g,
            c.b == self.b,
    {
        ColorI32::new(self)
    }
}

impl ColorType for Color {
    type ValueType = u8;

    /// Channels 0 to 3 are red, green, blue and alpha; there is no other.
    open spec fn spec_channel(&self, c: usize) -> Option<u8> {
        if c == 0 {
            Some(self.r)
        } else if c == 1 {
            Some(self.g)
        } else if c == 2 {
            Some(self.b)
        } else if c == 3 {
            Some(self.a)
        } else {
            None
        }
    }

    fn channel(&self, c: usize) -> (v: Option<u8>) {
        if c == 0 {
            Some(self.r)
        } else if c == 1 {
            Some(self.g)
        } else if c == 2 {
            Some(self.b)
        } else if c == 3 {
            Some(self.a)
        } else {
            None
        }
    }
}

impl ColorI32 {
    pub fn new(color: &Color) -> (c: Self)
        ensures
            c.r == color.r,
            c.g == color.g,
            c.b == color.b,
    {
        Self { r: color.r as i32, g: color.g as i32, b: color.b as i32 }
    }

    /// Channel-wise sum.
    pub fn add(&self, other: &Self) -> (c: Self)
        requires
            fits_i32(self.r + other.r),
            fits_i32(self.g + other.g),
            fits_i32(self.b + other.b),
        ensures
            c.r == self.r + other.r,
            c.g == self.g + other.g,
            c.b == self.b + other.b,
    {
        Self { r: self.r + other.r, g: self.g + other.g, b: self.b + other.b }
    }

    /// Channel-wise difference.
    pub fn diff(&self, other: &Self) -> (c: Self)
        requires
            fits_i32(self.r - other.r),
            fits_i32(self.g - other.g),
            fits_i32(self.b - other.b),
        ensures
            c.r == self.r - other.r,
            c.g == self.g - other.g,
            c.b == self.b - other.b,
    {
        Self { r: self.r - other.r, g: self.g - other.g, b: self.b - other.b }
    }

    /// The opaque 8-bit colour with the same channels.
    pub fn to_color(&self) -> (c: Color)
        requires
            0 <= self.r < 256,
            0 <= self.g < 256,
            0 <= self.b < 256,
        ensures
            c.r == self.r,
            c.g == self.g,
            c.b == self.b,
            c.a == 255,
    {
        Color::new(self.r as u8, self.g as u8, self.b as u8)
    }
}

impl ColorSum {
    /// The sum of no colour.
    pub open spec fn spec_zero() -> Self {
        ColorSum { r: 0, g: 0, b: 0, a: 0, counter: 0 }
    }

    /// Every channel is at most 255 times the number of colours summed, as
    /// it is for any sum of that many 8-bit colours.
    pub open spec fn bounded(self) -> bool {
        &&& self.r <= 255 * self.counter
        &&& self.g <= 255 * self.counter
        &&& self.b <= 255 * self.counter
        &&& self.a <= 255 * self.counter
    }

    /// The sum after one more colour.
    pub open spec fn spec_add(self, color: Color) -> Self {
        ColorSum {
            r: (self.r + color.r) as u32,
            g: (self.g + color.g) as u32,
            b: (self.b + color.b) as u32,
            a: (self.a + color.a) as u32,
            counter: (self.counter + 1) as u32,
        }
    }

    /// The sum of two sums.
    pub open spec fn spec_merge(self, other: Self) -> Self {
        ColorSum {
            r: (self.r + other.r) as u32,
            g: (self.g + other.g) as u32,
            b: (self.b + other.b) as u32,
            a: (self.a + other.a) as u32,
            counter: (self.counter + other.counter) as u32,
        }
    }

    /// The mean colour: each channel divided by the counter, rounded down,
    /// and its low eight bits kept.
    pub open spec fn spec_average(self) -> Color {
        Color {
            r: ((self.r / self.counter) % 256) as u8,
            g: ((self.g / self.counter) % 256) as u8,
            b: ((self.b / self.counter) % 256) as u8,
            a: ((self.a / self.counter) % 256) as u8,
        }
    }

    pub fn new() -> (s: Self)
        ensures
            s == Self::spec_zero(),
    {
        Self { r: 0, g: 0, b: 0, a: 0, counter: 0 }
    }

    pub fn add(&mut self, color: &Color)
        requires
            old(self).r + color.r <= u32::MAX,
            old(self).g + color.g <= u32::MAX,
            old(self).b + color.b <= u32::MAX,
            old(self).a + color.a <= u32::MAX,
            old(self).counter < u32::MAX,
        ensures
            *final(self) == old(self).spec_add(*color),
    {
        self.r += color.r as u32;
        self.g += color.g as u32;
        self.b += color.b as u32;
        self.a += color.a as u32;
        self.counter += 1;
    }

    pub fn merge(&mut self, color: &ColorSum)
        requires
            old(self).r + color.r <= u32::MAX,
            old(self).g + color.g <= u32::MAX,
            old(self).b + color.b <= u32::MAX,
            old(self).a + color.a <= u32::MAX,
            old(self).counter + color.counter <= u32::MAX,
        ensures
            *final(self) == old(self).spec_merge(*color),
    {
        self.r += color.r;
        self.g += color.g;
        self.b += color.b;
        self.a += color.a;
        self.counter += color.counter;
    }

    pub fn average(&self) -> (c: Color)
        requires
            self.counter > 0,
        ensures
            c == self.spec_average(),
    {
        Color::new_rgba(
            ((self.r / self.counter) % 256) as u8,
            ((self.g / self.counter) % 256) as u8,
            ((self.b / self.counter) % 256) as u8,
            ((self.a / self.counter) % 256) as u8,
        )
    }

    pub fn clear(&mut self)
        ensures
            *final(self) == Self::spec_zero(),
    {
        self.r = 0;
        self.g = 0;
        self.b = 0;
        self.a = 0;
        self.counter = 0;
    }
}

} // verus!
