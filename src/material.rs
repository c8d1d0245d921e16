//! Colours and surface materials.
use vstd::prelude::*;

use crate::fixed::{within, COEF_BOUND, UNIT};

verus! {

/// Three fixed-point colour channels; `0..=UNIT` is the displayable range.
#[derive(Clone, Copy, Debug, PartialEq, Eq, Structural)]
pub struct Color {
    pub r: i64,
    pub g: i64,
    pub b: i64,
}

/// The 8-bit value of a fixed-point channel: the channel times 256, clamped
/// to `0..=255`.
pub open spec fn channel_byte(c: int) -> int {
    let v = (c * 256) / (UNIT as int);
    if v < 0 {
        0
    } else if v > 255 {
        255
    } else {
        v
    }
}

impl Color {
    pub fn new(r: i64, g: i64, b: i64) -> (c: Color)
        ensures
            c == (Color { r, g, b }),
    {
        Color { r, g, b }
    }

    pub fn black() -> (c: Color)
        ensures
            c == (Color { r: 0, g: 0, b: 0 }),
    {
        Color { r: 0, g: 0, b: 0 }
    }

    /// The channel-wise sum.
    pub fn add(&self, other: &Color) -> (c: Color)
        requires
            within(self.r + other.r, i64::MAX as int),
            within(self.g + other.g, i64::MAX as int),
            within(self.b + other.b, i64::MAX as int),
        ensures
            c.r == self.r + other.r,
            c.g == self.g + other.g,
            c.b == self.b + other.b,
    {
        Color { r: self.r + other.r, g: self.g + other.g, b: self.b + other.b }
    }

    /// Adds `other` channel by channel.
    pub fn add_assign(&mut self, other: Color)
        requires
            within(old(self).r + other.r, i64::MAX as int),
            within(old(self).g + other.g, i64::MAX as int),
            within(old(self).b + other.b, i64::MAX as int),
        ensures
            final(self).r == old(self).r + other.r,
            final(self).g == old(self).g + other.g,
            final(self).b == old(self).b + other.b,
    {
        self.r = self.r + other.r;
        self.g = self.g + other.g;
        self.b = self.b + other.b;
    }

    /// Every channel lies in the displayable range.
    pub open spec fn displayable(self) -> bool {
        0 <= self.r <= UNIT && 0 <= self.g <= UNIT && 0 <= self.b <= UNIT
    }

    /// The 8-bit RGB value of the colour, each channel clamped rather than wrapped.
    pub fn to_rgb8(&self) -> (bytes: [u8; 3])
        ensures
            bytes@ == seq![
                channel_byte(self.r as int) as u8,
                channel_byte(self.g as int) as u8,
                channel_byte(self.b as int) as u8,
            ],
    {
        [to_byte(self.r), to_byte(self.g), to_byte(self.b)]
    }
}

fn to_byte(c: i64) -> (r: u8)
    ensures
        r == channel_byte(c as int),
{
    let ghost u = UNIT as int;
    if c <= 0 {
        assert((c * 256) / u <= 0) by (nonlinear_arith)
            requires
                c <= 0,
                u == 4096,
        ;
        0
    } else if c >= UNIT {
        assert((c * 256) / u >= 256) by (nonlinear_arith)
            requires
                c >= u,
                u == 4096,
        ;
        255
    } else {
        assert(0 <= (c * 256) / u < 256) by (nonlinear_arith)
            requires
                0 < c < u,
                u == 4096,
        ;
        (c * 256 / UNIT) as u8
    }
}

/// A surface's base colour and Phong shading coefficients (fixed point), with
/// an integer shininess exponent.
#[derive(Clone, Copy, Debug)]
pub struct Material {
    pub color: Color,
    pub diffusion: i64,
    pub reflection: i64,
    pub shininess: u32,
}

impl Material {
    /// The colour is displayable and the coefficients lie in `0..=COEF_BOUND`.
    pub open spec fn well_formed(self) -> bool {
        &&& self.color.displayable()
        &&& 0 <= self.diffusion <= COEF_BOUND
        &&& 0 <= self.reflection <= COEF_BOUND
    }

    /// A material of the given colour with diffusion 1.0, reflection 3.0 and
    /// shininess 10.
    pub fn new(r: i64, g: i64, b: i64) -> (m: Material)
        requires
            0 <= r <= UNIT,
            0 <= g <= UNIT,
            0 <= b <= UNIT,
        ensures
            m.color == (Color { r, g, b }),
            m.diffusion == UNIT,
            m.reflection == 3 * UNIT,
            m.shininess == 10,
            m.well_formed(),
    {
        Material { color: Color { r, g, b }, diffusion: UNIT, reflection: 3 * UNIT, shininess: 10 }
    }
}

} // verus!
