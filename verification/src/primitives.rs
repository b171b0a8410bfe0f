//! Plain value types shared by the whole crate: scalars, 2-D vectors,
//! colours and resource ids.

use vstd::prelude::*;

verus! {

/// A single-precision number carried by its IEEE-754 bit pattern.
///
/// The library stores and copies these values but never computes with them.
#[derive(Clone, Copy, Debug, PartialEq, Eq, Structural)]
pub struct Scalar {
    pub bits: u32,
}

/// The bit pattern of `+0.0`.
pub const ZERO_BITS: u32 = 0u32;

/// The bit pattern of `1.0`.
pub const ONE_BITS: u32 = 0x3f80_0000u32;

impl Scalar {
    pub fn from_bits(bits: u32) -> (s: Scalar)
        ensures
            s.bits == bits,
    {
        Scalar { bits }
    }

    /// `+0.0`.
    pub fn zero() -> (s: Scalar)
        ensures
            s.bits == ZERO_BITS,
    {
        Scalar { bits: ZERO_BITS }
    }

    /// `1.0`.
    pub fn one() -> (s: Scalar)
        ensures
            s.bits == ONE_BITS,
    {
        Scalar { bits: ONE_BITS }
    }
}

/// A point or an extent in screen space.
#[derive(Clone, Copy, Debug, PartialEq, Eq, Structural)]
pub struct Vec2 {
    pub x: Scalar,
    pub y: Scalar,
}

impl Vec2 {
    pub fn new(x: Scalar, y: Scalar) -> (v: Vec2)
        ensures
            v.x == x,
            v.y == y,
    {
        Vec2 { x, y }
    }

    /// The origin `(0.0, 0.0)`.
    pub fn zero() -> (v: Vec2)
        ensures
            v.x.bits == ZERO_BITS,
            v.y.bits == ZERO_BITS,
    {
        Vec2 { x: Scalar::zero(), y: Scalar::zero() }
    }
}

/// An 8-bit-per-channel RGBA colour.
#[derive(Clone, Copy, Debug, PartialEq, Eq, Structural)]
pub struct Color {
    pub r: u8,
    pub g: u8,
    pub b: u8,
    pub a: u8,
}

impl Color {
    pub fn new(r: u8, g: u8, b: u8, a: u8) -> (c: Color)
        ensures
            c.r == r,
            c.g == g,
            c.b == b,
            c.a == a,
    {
        Color { r, g, b, a }
    }

    /// Opaque white.
    pub fn white() -> (c: Color)
        ensures
            c == spec_white(),
    {
        Color { r: 255, g: 255, b: 255, a: 255 }
    }
}

pub open spec fn spec_white() -> Color {
    Color { r: 255, g: 255, b: 255, a: 255 }
}

/// The id of a texture owned by the renderer.
#[derive(Clone, Copy, Debug, PartialEq, Eq, Hash, Structural)]
pub struct TextureId {
    pub index: u32,
}

/// The id of a material (shader) owned by the renderer.
#[derive(Clone, Copy, Debug, PartialEq, Eq, Hash, Structural)]
pub struct MaterialId {
    pub index: u32,
}

/// The borders of a nine-patch texture that do not stretch.
#[derive(Clone, Copy, Debug, PartialEq, Eq, Structural)]
pub struct NinePatchMargins {
    pub left: Scalar,
    pub right: Scalar,
    pub top: Scalar,
    pub bottom: Scalar,
}

} // verus!
