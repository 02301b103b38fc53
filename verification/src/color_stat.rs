//! Running statistics over colour samples.

use vstd::prelude::*;

use crate::color::Color;
use crate::statistic::SimpleStatBuilder;

verus! {

/// Collects statistics of colour samples, channel by channel.
pub struct ColorStatBuilder {
    pub r: SimpleStatBuilder,
    pub g: SimpleStatBuilder,
    pub b: SimpleStatBuilder,
}

impl ColorStatBuilder {
    pub fn new() -> (s: Self)
        ensures
            s.r.count == 0 && s.r.sum == 0 && s.r.sqsum == 0,
            s.g.count == 0 && s.g.sum == 0 && s.g.sqsum == 0,
            s.b.count == 0 && s.b.sum == 0 && s.b.sqsum == 0,
    {
        Self { r: SimpleStatBuilder::new(), g: SimpleStatBuilder::new(), b: SimpleStatBuilder::new() }
    }

    /// Takes one more colour.
    pub fn add(&mut self, color: Color)
        requires
            old(self).r.sum + 255 <= i32::MAX && old(self).r.sum >= 0,
            old(self).g.sum + 255 <= i32::MAX && old(self).g.sum >= 0,
            old(self).b.sum + 255 <= i32::MAX && old(self).b.sum >= 0,
            old(self).r.sqsum + 65025 <= u64::MAX,
            old(self).g.sqsum + 65025 <= u64::MAX,
            old(self).b.sqsum + 65025 <= u64::MAX,
            old(self).r.count < u32::MAX,
            old(self).g.count < u32::MAX,
            old(self).b.count < u32::MAX,
        ensures
            final(self).r.sum == old(self).r.sum + color.r,
            final(self).g.sum == old(self).g.sum + color.g,
            final(self).b.sum == old(self).b.sum + color.b,
            final(self).r.sqsum == old(self).r.sqsum + color.r * color.r,
            final(self).g.sqsum == old(self).g.sqsum + color.g * color.g,
            final(self).b.sqsum == old(self).b.sqsum + color.b * color.b,
            final(self).r.count == old(self).r.count + 1,
            final(self).g.count == old(self).g.count + 1,
            final(self).b.count == old(self).b.count + 1,
    {
        assert(color.r * color.r <= 65025) by (nonlinear_arith)
            requires
                0 <= color.r <= 255,
        ;
        assert(color.g * color.g <= 65025) by (nonlinear_arith)
            requires
                0 <= color.g <= 255,
        ;
        assert(color.b * color.b <= 65025) by (nonlinear_arith)
            requires
                0 <= color.b <= 255,
        ;
        self.r.add(color.r as i32);
        self.g.add(color.g as i32);
        self.b.add(color.b as i32);
    }
}

} // verus!
