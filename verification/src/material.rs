//! Colors as unclamped RGB triples in 16-bit binary fixed point, and the
//! surface material description the transport code dispatches on.

use vstd::prelude::*;

use crate::fixed::{fx_mul, tdiv};
use crate::FX_ONE;

verus! {

#[derive(Clone, Copy, Debug, PartialEq, Eq, Structural)]
pub struct Color {
    pub r: i64,
    pub g: i64,
    pub b: i64,
}

/// All channels within `[lo, hi]`.
pub open spec fn color_in_range(c: Color, lo: int, hi: int) -> bool {
    lo <= c.r <= hi && lo <= c.g <= hi && lo <= c.b <= hi
}

/// The greatest of the three channels.
pub open spec fn max_channel(c: Color) -> int {
    if c.r >= c.g && c.r >= c.b {
        c.r as int
    } else if c.g >= c.b {
        c.g as int
    } else {
        c.b as int
    }
}

/// One output byte: the channel scaled by 255 and clamped to `[0, 255]`.
pub open spec fn channel_byte(c: int) -> int {
    let v = tdiv(c * 255, FX_ONE as int);
    if v < 0 {
        0
    } else if v > 255 {
        255
    } else {
        v
    }
}

impl Color {
    pub fn black() -> (r: Color)
        ensures
            r == (Color { r: 0i64, g: 0i64, b: 0i64 }),
    {
        Color { r: 0, g: 0, b: 0 }
    }

    pub fn white() -> (r: Color)
        ensures
            r == (Color { r: FX_ONE, g: FX_ONE, b: FX_ONE }),
    {
        Color { r: FX_ONE, g: FX_ONE, b: FX_ONE }
    }

    pub fn new(r: i64, g: i64, b: i64) -> (c: Color)
        ensures
            c == (Color { r, g, b }),
    {
        Color { r, g, b }
    }

    pub fn add(&self, other: &Color) -> (c: Color)
        requires
            i64::MIN <= self.r + other.r <= i64::MAX,
            i64::MIN <= self.g + other.g <= i64::MAX,
            i64::MIN <= self.b + other.b <= i64::MAX,
        ensures
            c.r == self.r + other.r,
            c.g == self.g + other.g,
            c.b == self.b + other.b,
    {
        Color { r: self.r + other.r, g: self.g + other.g, b: self.b + other.b }
    }

    /// Componentwise fixed-point product.
    pub fn mul(&self, other: &Color) -> (c: Color)
        requires
            i64::MIN <= tdiv(self.r * other.r, FX_ONE as int) <= i64::MAX,
            i64::MIN <= tdiv(self.g * other.g, FX_ONE as int) <= i64::MAX,
            i64::MIN <= tdiv(self.b * other.b, FX_ONE as int) <= i64::MAX,
        ensures
            c.r == tdiv(self.r * other.r, FX_ONE as int),
            c.g == tdiv(self.g * other.g, FX_ONE as int),
            c.b == tdiv(self.b * other.b, FX_ONE as int),
    {
        Color {
            r: fx_mul(self.r, other.r),
            g: fx_mul(self.g, other.g),
            b: fx_mul(self.b, other.b),
        }
    }

    /// Product with a fixed-point scalar.
    pub fn scale(&self, s: i64) -> (c: Color)
        requires
            i64::MIN <= tdiv(self.r * s, FX_ONE as int) <= i64::MAX,
            i64::MIN <= tdiv(self.g * s, FX_ONE as int) <= i64::MAX,
            i64::MIN <= tdiv(self.b * s, FX_ONE as int) <= i64::MAX,
        ensures
            c.r == tdiv(self.r * s, FX_ONE as int),
            c.g == tdiv(self.g * s, FX_ONE as int),
            c.b == tdiv(self.b * s, FX_ONE as int),
    {
        Color { r: fx_mul(self.r, s), g: fx_mul(self.g, s), b: fx_mul(self.b, s) }
    }

    /// The greatest channel.
    pub fn max(&self) -> (r: i64)
        ensures
            r == max_channel(*self),
    {
        if self.r >= self.g && self.r >= self.b {
            self.r
        } else if self.g >= self.b {
            self.g
        } else {
            self.b
        }
    }

    pub fn sum(&self) -> (r: i64)
        requires
            i64::MIN <= self.r + self.g <= i64::MAX,
            i64::MIN <= self.r + self.g + self.b <= i64::MAX,
        ensures
            r == self.r + self.g + self.b,
    {
        self.r + self.g + self.b
    }

    /// Each channel capped at one.
    pub fn capped(&self) -> (c: Color)
        ensures
            c.r == if self.r <= FX_ONE { self.r as int } else { FX_ONE as int },
            c.g == if self.g <= FX_ONE { self.g as int } else { FX_ONE as int },
            c.b == if self.b <= FX_ONE { self.b as int } else { FX_ONE as int },
    {
        Color {
            r: if self.r <= FX_ONE {
                self.r
            } else {
                FX_ONE
            },
            g: if self.g <= FX_ONE {
                self.g
            } else {
                FX_ONE
            },
            b: if self.b <= FX_ONE {
                self.b
            } else {
                FX_ONE
            },
        }
    }

    pub fn r_byte(&self) -> (r: u8)
        ensures
            r == channel_byte(self.r as int),
    {
        byte_of_channel(self.r)
    }

    pub fn g_byte(&self) -> (r: u8)
        ensures
            r == channel_byte(self.g as int),
    {
        byte_of_channel(self.g)
    }

    pub fn b_byte(&self) -> (r: u8)
        ensures
            r == channel_byte(self.b as int),
    {
        byte_of_channel(self.b)
    }

    pub fn to_buffer(&self) -> (r: [u8; 3])
        ensures
            r[0] == channel_byte(self.r as int),
            r[1] == channel_byte(self.g as int),
            r[2] == channel_byte(self.b as int),
    {
        [byte_of_channel(self.r), byte_of_channel(self.g), byte_of_channel(self.b)]
    }
}

fn byte_of_channel(c: i64) -> (r: u8)
    ensures
        r == channel_byte(c as int),
{
    if c <= 0 {
        assert(tdiv(c * 255, FX_ONE as int) <= 0) by (nonlinear_arith)
            requires
                c <= 0,
        ;
        0
    } else {
        assert(0 <= (c as int) * 255 <= 0x7fff_ffff_ffff_ffff * 256) by (nonlinear_arith)
            requires
                0 < c <= 0x7fff_ffff_ffff_ffffi64,
        ;
        let p: i128 = (c as i128) * 255;
        let q: i128 = p / (FX_ONE as i128);
        if q > 255 {
            255
        } else {
            q as u8
        }
    }
}

#[derive(Clone, Copy, Debug, PartialEq, Eq, Structural)]
pub struct Material {
    /// Zero for an opaque surface; a dielectric's index otherwise.
    pub refractive_index: i64,
    pub diffuse_color: Color,
    pub specular_exponent: u32,
    pub reflect_color: Color,
}

} // verus!
