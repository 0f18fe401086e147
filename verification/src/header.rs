//! The image header, the stream's framing and big-endian 32-bit fields.

use vstd::prelude::*;

verus! {

/// Colour space tag: sRGB with linear alpha.
pub const QOI_SRGB: u8 = 0;

/// Colour space tag: all channels linear.
pub const QOI_LINEAR: u8 = 1;

/// The bytes `q`, `o`, `i`, `f` read as one big-endian number.
pub const QOI_MAGIC: u32 = 0x716f6966;

/// Length of the header in bytes.
pub const QOI_HEADER_SIZE: usize = 14;

/// Length of the end marker in bytes.
pub const QOI_PADDING_SIZE: usize = 8;

/// An image must have fewer pixels than this.
pub const QOI_PIXELS_MAX: u32 = 400000000;

/// Description of an image: its size, its channel count (3 = RGB, 4 = RGBA)
/// and its colour space (0 = sRGB with linear alpha, 1 = all channels
/// linear). The colour space is carried along and does not change the
/// encoding.
#[derive(Clone, Copy, Debug, PartialEq, Eq, Structural)]
pub struct QOIHeader {
    pub width: u32,
    pub height: u32,
    pub channels: u8,
    pub colorspace: u8,
}

impl QOIHeader {
    /// A header that the codec accepts: both sides at least 1, three or four
    /// channels, a known colour space, and a height below
    /// `400000000 / width`.
    pub open spec fn valid(self) -> bool {
        &&& self.width >= 1
        &&& self.height >= 1
        &&& (self.channels == 3 || self.channels == 4)
        &&& self.colorspace <= 1
        &&& self.height < QOI_PIXELS_MAX / self.width
    }

    /// Number of pixels of the image.
    pub open spec fn pixel_count(self) -> nat {
        (self.width * self.height) as nat
    }

    /// The 14 bytes that open a stream: magic, width, height, channels,
    /// colour space.
    pub open spec fn bytes(self) -> Seq<u8> {
        be_bytes(QOI_MAGIC) + be_bytes(self.width) + be_bytes(self.height) + seq![
            self.channels,
            self.colorspace,
        ]
    }

    /// The header whose fields stand in the first 14 bytes of `s`, whatever
    /// the first four of them are.
    pub open spec fn read(s: Seq<u8>) -> QOIHeader {
        QOIHeader {
            width: be_value(s, 4) as u32,
            height: be_value(s, 8) as u32,
            channels: s[12],
            colorspace: s[13],
        }
    }

    /// Tells whether the codec accepts this header.
    pub fn is_valid(&self) -> (ok: bool)
        ensures
            ok == self.valid(),
    {
        self.width != 0 && self.height != 0 && self.channels >= 3 && self.channels <= 4
            && self.colorspace <= 1 && self.height < QOI_PIXELS_MAX / self.width
    }

    /// A valid image has between 1 and 399,999,999 pixels.
    pub proof fn lemma_pixel_count(self)
        requires
            self.valid(),
        ensures
            1 <= self.pixel_count() < QOI_PIXELS_MAX,
            self.pixel_count() == self.width * self.height,
    {
        let w = self.width as int;
        let h = self.height as int;
        let q = (QOI_PIXELS_MAX / self.width) as int;
        assert(w * h >= 1) by (nonlinear_arith)
            requires
                w >= 1,
                h >= 1,
        ;
        assert(w * q <= 400000000) by (nonlinear_arith)
            requires
                w >= 1,
                q == 400000000int / w,
        ;
        assert(w * h < 400000000) by (nonlinear_arith)
            requires
                w >= 1,
                0 <= h < q,
                w * q <= 400000000,
        ;
    }

    /// Reading back the bytes of a header gives the header and the magic.
    pub proof fn lemma_read_bytes(self, rest: Seq<u8>)
        ensures
            (self.bytes() + rest).len() == 14 + rest.len(),
            Self::read(self.bytes() + rest) == self,
            be_value(self.bytes() + rest, 0) == QOI_MAGIC,
    {
        let s = self.bytes() + rest;
        lemma_be_value_bytes(QOI_MAGIC);
        lemma_be_value_bytes(self.width);
        lemma_be_value_bytes(self.height);
        assert(be_value(s, 0) == be_value(be_bytes(QOI_MAGIC), 0));
        assert(be_value(s, 4) == be_value(be_bytes(self.width), 0));
        assert(be_value(s, 8) == be_value(be_bytes(self.height), 0));
    }
}

/// The end marker of every stream.
pub open spec fn padding() -> Seq<u8> {
    seq![0u8, 0u8, 0u8, 0u8, 0u8, 0u8, 0u8, 1u8]
}

/// The four bytes of `v`, most significant first.
pub open spec fn be_bytes(v: u32) -> Seq<u8> {
    seq![
        (v / 0x100_0000) as u8,
        (v / 0x1_0000 % 0x100) as u8,
        (v / 0x100 % 0x100) as u8,
        (v % 0x100) as u8,
    ]
}

/// The number that the four bytes of `s` from position `p` on spell, most
/// significant first.
pub open spec fn be_value(s: Seq<u8>, p: int) -> int {
    s[p] * 0x100_0000 + s[p + 1] * 0x1_0000 + s[p + 2] * 0x100 + s[p + 3]
}

/// Four bytes spell a number that fits in 32 bits.
pub proof fn lemma_be_value_range(s: Seq<u8>, p: int)
    ensures
        0 <= be_value(s, p) <= u32::MAX,
{
}

/// The big-endian bytes of a number spell that number.
pub proof fn lemma_be_value_bytes(v: u32)
    ensures
        be_bytes(v).len() == 4,
        be_value(be_bytes(v), 0) == v,
{
}

/// Appends the four bytes of `v` to `bytes`, most significant first.
pub fn qoi_write_32(bytes: &mut Vec<u8>, v: u32)
    ensures
        final(bytes)@ == old(bytes)@ + be_bytes(v),
{
    let b0: u32 = (0xff000000 & v) >> 24;
    let b1: u32 = (0x00ff0000 & v) >> 16;
    let b2: u32 = (0x0000ff00 & v) >> 8;
    let b3: u32 = 0x000000ff & v;
    assert(b0 == v / 0x100_0000 && b0 < 0x100) by (bit_vector)
        requires
            b0 == (0xff000000u32 & v) >> 24,
    ;
    assert(b1 == v / 0x1_0000 % 0x100) by (bit_vector)
        requires
            b1 == (0x00ff0000u32 & v) >> 16,
    ;
    assert(b2 == v / 0x100 % 0x100) by (bit_vector)
        requires
            b2 == (0x0000ff00u32 & v) >> 8,
    ;
    assert(b3 == v % 0x100) by (bit_vector)
        requires
            b3 == 0x000000ffu32 & v,
    ;
    bytes.push(b0 as u8);
    bytes.push(b1 as u8);
    bytes.push(b2 as u8);
    bytes.push(b3 as u8);
    assert(bytes@ =~= old(bytes)@ + be_bytes(v));
}

/// Reads the big-endian number in the four bytes at `*p` and moves `*p` past
/// them.
pub fn qoi_read_32(bytes: &Vec<u8>, p: &mut usize) -> (v: u32)
    requires
        *old(p) + 4 <= bytes.len(),
    ensures
        *final(p) == *old(p) + 4,
        v == be_value(bytes@, *old(p) as int),
{
    let start = *p;
    let a = bytes[start];
    let b = bytes[start + 1];
    let c = bytes[start + 2];
    let d = bytes[start + 3];
    *p = start + 4;
    let v = (a as u32) << 24 | (b as u32) << 16 | (c as u32) << 8 | (d as u32);
    assert(v == a * 0x100_0000 + b * 0x1_0000 + c * 0x100 + d) by (bit_vector)
        requires
            v == (a as u32) << 24 | (b as u32) << 16 | (c as u32) << 8 | (d as u32),
    ;
    v
}

/// Appends the end marker to `bytes`.
pub fn write_padding(bytes: &mut Vec<u8>)
    ensures
        final(bytes)@ == old(bytes)@ + padding(),
{
    let mut i: usize = 0;
    while i < 7
        invariant
            i <= 7,
            bytes@ == old(bytes)@ + padding().take(i as int),
        decreases 7 - i,
    {
        bytes.push(0);
        i += 1;
    }
    bytes.push(1);
    assert(bytes@ =~= old(bytes)@ + padding());
}

} // verus!
