//! The six chunk forms of the stream and their byte layout.

use vstd::prelude::*;

verus! {

/// Tag of an index chunk, in the top two bits: `00xxxxxx`.
pub const QOI_OP_INDEX: u8 = 0x00;

/// Tag of a small-difference chunk, in the top two bits: `01xxxxxx`.
pub const QOI_OP_DIFF: u8 = 0x40;

/// Tag of a luma-difference chunk, in the top two bits: `10xxxxxx`.
pub const QOI_OP_LUMA: u8 = 0x80;

/// Tag of a run chunk, in the top two bits: `11xxxxxx`.
pub const QOI_OP_RUN: u8 = 0xc0;

/// Tag of a chunk with the three colour channels: `11111110`.
pub const QOI_OP_RGB: u8 = 0xfe;

/// Tag of a chunk with all four channels: `11111111`.
pub const QOI_OP_RGBA: u8 = 0xff;

/// The top two bits of a byte.
pub const QOI_MASK_2: u8 = 0xc0;

/// The longest run that one chunk can hold.
pub const QOI_RUN_MAX: u8 = 62;

/// One chunk of the stream.
///
/// The two chunks with a full-byte tag would otherwise read as runs of 63
/// and 64 pixels, which is why a run holds 62 pixels at most.
#[derive(Clone, Copy, Debug, PartialEq, Eq, Structural)]
pub enum Chunk {
    /// The three colour channels; alpha stays as it was.
    Rgb { r: u8, g: u8, b: u8 },
    /// All four channels.
    Rgba { r: u8, g: u8, b: u8, a: u8 },
    /// The pixel stored in a slot of the index table; `slot` is below 64.
    Index { slot: u8 },
    /// Differences to the previous pixel, each from −2 to 1.
    Diff { dr: i8, dg: i8, db: i8 },
    /// The green difference, from −32 to 31, and the red and blue differences
    /// relative to it, each from −8 to 7.
    Luma { dg: i8, dr_dg: i8, db_dg: i8 },
    /// The previous pixel `len` times over; `len` is from 1 to 62.
    Run { len: u8 },
}

impl Chunk {
    /// The fields are within the ranges that the byte layout can hold.
    pub open spec fn well_formed(self) -> bool {
        match self {
            Chunk::Rgb { .. } => true,
            Chunk::Rgba { .. } => true,
            Chunk::Index { slot } => slot < 64,
            Chunk::Diff { dr, dg, db } => -2 <= dr <= 1 && -2 <= dg <= 1 && -2 <= db <= 1,
            Chunk::Luma { dg, dr_dg, db_dg } => -32 <= dg <= 31 && -8 <= dr_dg <= 7 && -8
                <= db_dg <= 7,
            Chunk::Run { len } => 1 <= len <= QOI_RUN_MAX,
        }
    }

    /// Number of bytes that the chunk takes in the stream.
    pub open spec fn size(self) -> nat {
        match self {
            Chunk::Rgb { .. } => 4,
            Chunk::Rgba { .. } => 5,
            Chunk::Luma { .. } => 2,
            _ => 1,
        }
    }

    /// The bytes of the chunk: its tag, then its fields, each bias added so
    /// that it is stored as an unsigned number.
    pub open spec fn bytes(self) -> Seq<u8> {
        match self {
            Chunk::Rgb { r, g, b } => seq![QOI_OP_RGB, r, g, b],
            Chunk::Rgba { r, g, b, a } => seq![QOI_OP_RGBA, r, g, b, a],
            Chunk::Index { slot } => seq![QOI_OP_INDEX | slot],
            Chunk::Diff { dr, dg, db } => seq![
                QOI_OP_DIFF | ((dr + 2) as u8) << 4 | ((dg + 2) as u8) << 2 | (db + 2) as u8,
            ],
            Chunk::Luma { dg, dr_dg, db_dg } => seq![
                QOI_OP_LUMA | (dg + 32) as u8,
                ((dr_dg + 8) as u8) << 4 | (db_dg + 8) as u8,
            ],
            Chunk::Run { len } => seq![QOI_OP_RUN | (len - 1) as u8],
        }
    }

    /// The chunk that stands at the head of `s`, or `None` where `s` ends
    /// before the chunk does. The full-byte tags are tested before the
    /// two-bit tags.
    pub open spec fn parse(s: Seq<u8>) -> Option<Chunk> {
        if s.len() < 1 {
            None
        } else if s[0] == QOI_OP_RGB {
            if s.len() < 4 {
                None
            } else {
                Some(Chunk::Rgb { r: s[1], g: s[2], b: s[3] })
            }
        } else if s[0] == QOI_OP_RGBA {
            if s.len() < 5 {
                None
            } else {
                Some(Chunk::Rgba { r: s[1], g: s[2], b: s[3], a: s[4] })
            }
        } else if s[0] & QOI_MASK_2 == QOI_OP_INDEX {
            Some(Chunk::Index { slot: s[0] & 0x3f })
        } else if s[0] & QOI_MASK_2 == QOI_OP_DIFF {
            Some(
                Chunk::Diff {
                    dr: (((s[0] >> 4) & 0x03) - 2) as i8,
                    dg: (((s[0] >> 2) & 0x03) - 2) as i8,
                    db: ((s[0] & 0x03) - 2) as i8,
                },
            )
        } else if s[0] & QOI_MASK_2 == QOI_OP_LUMA {
            if s.len() < 2 {
                None
            } else {
                Some(
                    Chunk::Luma {
                        dg: ((s[0] & 0x3f) - 32) as i8,
                        dr_dg: (((s[1] >> 4) & 0x0f) - 8) as i8,
                        db_dg: ((s[1] & 0x0f) - 8) as i8,
                    },
                )
            }
        } else {
            Some(Chunk::Run { len: ((s[0] & 0x3f) + 1) as u8 })
        }
    }

    /// Every chunk that is read from bytes is well formed and lies within
    /// them.
    pub proof fn lemma_parse_well_formed(s: Seq<u8>)
        requires
            Self::parse(s) is Some,
        ensures
            Self::parse(s).unwrap().well_formed(),
            Self::parse(s).unwrap().size() <= s.len(),
    {
        let b1 = s[0];
        assert(b1 & 0x3f < 64 && (b1 >> 4) & 0x03 < 4 && (b1 >> 2) & 0x03 < 4 && b1 & 0x03 < 4)
            by (bit_vector);
        assert(b1 != 0xfe && b1 != 0xff && b1 & 0xc0 == 0xc0 ==> b1 & 0x3f < 62) by (bit_vector);
        assert(b1 & 0xc0 == 0x00 || b1 & 0xc0 == 0x40 || b1 & 0xc0 == 0x80 || b1 & 0xc0 == 0xc0)
            by (bit_vector);
        if s.len() >= 2 {
            let b2 = s[1];
            assert((b2 >> 4) & 0x0f < 16 && b2 & 0x0f < 16) by (bit_vector);
        }
    }

    /// A chunk that is read from bytes is read from any longer sequence that
    /// starts with them.
    pub proof fn lemma_parse_extend(s: Seq<u8>, more: Seq<u8>)
        requires
            Self::parse(s) is Some,
        ensures
            Self::parse(s + more) == Self::parse(s),
    {
        let t = s + more;
        assert(t[0] == s[0]);
        if s.len() >= 2 {
            assert(t[1] == s[1]);
        }
        if s.len() >= 5 {
            assert(t[2] == s[2] && t[3] == s[3] && t[4] == s[4]);
        } else if s.len() >= 4 {
            assert(t[2] == s[2] && t[3] == s[3]);
        }
    }

    /// Reading the bytes of a well-formed chunk gives the chunk back,
    /// whatever follows them.
    pub proof fn lemma_parse_bytes(self, rest: Seq<u8>)
        requires
            self.well_formed(),
        ensures
            self.bytes().len() == self.size(),
            Self::parse(self.bytes() + rest) == Some(self),
    {
        let s = self.bytes() + rest;
        match self {
            Chunk::Rgb { .. } => {},
            Chunk::Rgba { .. } => {},
            Chunk::Index { slot } => {
                let x = s[0];
                assert(x != 0xfe && x != 0xff && x & 0xc0 == 0x00 && x & 0x3f == slot)
                    by (bit_vector)
                    requires
                        x == 0x00u8 | slot,
                        slot < 64,
                ;
            },
            Chunk::Diff { dr, dg, db } => {
                let x = s[0];
                let r = (dr + 2) as u8;
                let g = (dg + 2) as u8;
                let b = (db + 2) as u8;
                assert(x != 0xfe && x != 0xff && x & 0xc0 == 0x40 && (x >> 4) & 0x03 == r && (x
                    >> 2) & 0x03 == g && x & 0x03 == b) by (bit_vector)
                    requires
                        x == 0x40u8 | r << 4 | g << 2 | b,
                        r < 4,
                        g < 4,
                        b < 4,
                ;
            },
            Chunk::Luma { dg, dr_dg, db_dg } => {
                let x = s[0];
                let y = s[1];
                let g = (dg + 32) as u8;
                let r = (dr_dg + 8) as u8;
                let b = (db_dg + 8) as u8;
                assert(x != 0xfe && x != 0xff && x & 0xc0 == 0x80 && x & 0x3f == g)
                    by (bit_vector)
                    requires
                        x == 0x80u8 | g,
                        g < 64,
                ;
                assert((y >> 4) & 0x0f == r && y & 0x0f == b) by (bit_vector)
                    requires
                        y == r << 4 | b,
                        r < 16,
                        b < 16,
                ;
            },
            Chunk::Run { len } => {
                let x = s[0];
                let n = (len - 1) as u8;
                assert(x != 0xfe && x != 0xff && x & 0xc0 == 0xc0 && x & 0x3f == n)
                    by (bit_vector)
                    requires
                        x == 0xc0u8 | n,
                        n < 62,
                ;
            },
        }
    }

    /// Appends the bytes of the chunk to `bytes`.
    pub fn write(&self, bytes: &mut Vec<u8>)
        requires
            self.well_formed(),
        ensures
            final(bytes)@ == old(bytes)@ + self.bytes(),
    {
        match *self {
            Chunk::Rgb { r, g, b } => {
                bytes.push(QOI_OP_RGB);
                bytes.push(r);
                bytes.push(g);
                bytes.push(b);
            },
            Chunk::Rgba { r, g, b, a } => {
                bytes.push(QOI_OP_RGBA);
                bytes.push(r);
                bytes.push(g);
                bytes.push(b);
                bytes.push(a);
            },
            Chunk::Index { slot } => {
                bytes.push(QOI_OP_INDEX | slot);
            },
            Chunk::Diff { dr, dg, db } => {
                bytes.push(
                    QOI_OP_DIFF | ((dr + 2) as u8) << 4 | ((dg + 2) as u8) << 2 | (db + 2) as u8,
                );
            },
            Chunk::Luma { dg, dr_dg, db_dg } => {
                bytes.push(QOI_OP_LUMA | (dg + 32) as u8);
                bytes.push(((dr_dg + 8) as u8) << 4 | (db_dg + 8) as u8);
            },
            Chunk::Run { len } => {
                bytes.push(QOI_OP_RUN | (len - 1));
            },
        }
        assert(bytes@ =~= old(bytes)@ + self.bytes());
    }

    /// Reads the chunk that starts at `data[p]` and ends before `data[end]`.
    pub fn read(data: &Vec<u8>, p: usize, end: usize) -> (chunk: Option<Chunk>)
        requires
            p <= end <= data.len(),
        ensures
            chunk == Self::parse(data@.subrange(p as int, end as int)),
    {
        let ghost s = data@.subrange(p as int, end as int);
        if p >= end {
            return None;
        }
        let b1 = data[p];
        assert(b1 == s[0]);
        let left = end - p;
        if b1 == QOI_OP_RGB {
            if left < 4 {
                None
            } else {
                assert(s[1] == data[p + 1] && s[2] == data[p + 2] && s[3] == data[p + 3]);
                Some(Chunk::Rgb { r: data[p + 1], g: data[p + 2], b: data[p + 3] })
            }
        } else if b1 == QOI_OP_RGBA {
            if left < 5 {
                None
            } else {
                assert(s[1] == data[p + 1] && s[2] == data[p + 2] && s[3] == data[p + 3] && s[4]
                    == data[p + 4]);
                Some(
                    Chunk::Rgba { r: data[p + 1], g: data[p + 2], b: data[p + 3], a: data[p + 4] },
                )
            }
        } else if (b1 & QOI_MASK_2) == QOI_OP_INDEX {
            Some(Chunk::Index { slot: b1 & 0x3f })
        } else if (b1 & QOI_MASK_2) == QOI_OP_DIFF {
            assert((b1 >> 4) & 0x03 < 4 && (b1 >> 2) & 0x03 < 4 && b1 & 0x03 < 4) by (bit_vector);
            Some(
                Chunk::Diff {
                    dr: ((b1 >> 4) & 0x03) as i8 - 2,
                    dg: ((b1 >> 2) & 0x03) as i8 - 2,
                    db: (b1 & 0x03) as i8 - 2,
                },
            )
        } else if (b1 & QOI_MASK_2) == QOI_OP_LUMA {
            if left < 2 {
                None
            } else {
                let b2 = data[p + 1];
                assert(b2 == s[1]);
                assert(b1 & 0x3f < 64 && (b2 >> 4) & 0x0f < 16 && b2 & 0x0f < 16) by (bit_vector);
                Some(
                    Chunk::Luma {
                        dg: (b1 & 0x3f) as i8 - 32,
                        dr_dg: ((b2 >> 4) & 0x0f) as i8 - 8,
                        db_dg: (b2 & 0x0f) as i8 - 8,
                    },
                )
            }
        } else {
            assert(b1 & 0x3f < 64) by (bit_vector);
            Some(Chunk::Run { len: (b1 & 0x3f) + 1 })
        }
    }
}

} // verus!
