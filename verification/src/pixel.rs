//! Pixels, the colour hash and wrapping channel arithmetic.

use vstd::prelude::*;

verus! {

/// One pixel: red, green, blue and alpha, eight bits each.
///
/// In a three-channel image the alpha component is not part of the raster;
/// the codec carries it as the constant 255.
#[derive(Clone, Copy, Debug, PartialEq, Eq, Structural)]
pub struct QOIRGBA {
    pub r: u8,
    pub g: u8,
    pub b: u8,
    pub a: u8,
}

impl QOIRGBA {
    /// The all-zero pixel that fills a fresh index table.
    pub open spec fn zero() -> QOIRGBA {
        QOIRGBA { r: 0, g: 0, b: 0, a: 0 }
    }

    /// Opaque black, the pixel that precedes the first pixel of every image.
    pub open spec fn start() -> QOIRGBA {
        QOIRGBA { r: 0, g: 0, b: 0, a: 255 }
    }

    /// The all-zero pixel.
    pub fn new() -> (px: Self)
        ensures
            px == Self::zero(),
    {
        Self { r: 0, g: 0, b: 0, a: 0 }
    }

    /// The slot of the index table that this pixel is stored in.
    pub open spec fn slot(self) -> int {
        color_hash(self) % 64
    }
}

/// The colour hash `3·R + 5·G + 7·B + 11·A`, computed without wrapping.
pub open spec fn color_hash(c: QOIRGBA) -> int {
    3 * c.r + 5 * c.g + 7 * c.b + 11 * c.a
}

/// Computes the colour hash of a pixel. The index table is addressed by the
/// hash modulo 64.
pub fn qoi_color_hash(c: &QOIRGBA) -> (h: usize)
    ensures
        h == color_hash(*c),
        h % 64 == c.slot(),
{
    c.r as usize * 3 + c.g as usize * 5 + c.b as usize * 7 + c.a as usize * 11
}

/// The difference `cur − prev` on the ring of bytes: reduced modulo 256 and
/// read as a signed value in −128..=127.
pub open spec fn wrapping_delta(cur: u8, prev: u8) -> int {
    let d = cur - prev;
    if d > 127 {
        d - 256
    } else if d < -128 {
        d + 256
    } else {
        d
    }
}

/// The byte `v + d` on the ring of bytes: the sum reduced modulo 256.
pub open spec fn wrapping_offset(v: u8, d: int) -> u8 {
    ((v + d) % 256) as u8
}

/// Adding the wrapping difference of two bytes to the second gives the first.
pub proof fn lemma_delta_offset(cur: u8, prev: u8)
    ensures
        -128 <= wrapping_delta(cur, prev) <= 127,
        wrapping_offset(prev, wrapping_delta(cur, prev)) == cur,
{
}

/// A byte moves to exactly one other byte by a given step of the ring, and
/// the wrapping difference finds a step of at most 128 again.
pub proof fn lemma_offset_delta(v: u8, d: int)
    requires
        -128 <= d <= 127,
    ensures
        wrapping_delta(wrapping_offset(v, d), v) == d,
{
}

/// Computes the wrapping difference of two channel values.
pub fn channel_delta(cur: u8, prev: u8) -> (d: i8)
    ensures
        d == wrapping_delta(cur, prev),
{
    let d: i16 = cur as i16 - prev as i16;
    if d > 127 {
        (d - 256) as i8
    } else if d < -128 {
        (d + 256) as i8
    } else {
        d as i8
    }
}

/// Moves a channel value by a signed step, wrapping around at both ends.
pub fn channel_offset(v: u8, d: i8) -> (out: u8)
    ensures
        out == wrapping_offset(v, d as int),
{
    let s: i16 = v as i16 + d as i16;
    if s < 0 {
        (s + 256) as u8
    } else if s > 255 {
        (s - 256) as u8
    } else {
        s as u8
    }
}

} // verus!
