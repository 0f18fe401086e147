//! The running context that encoder and decoder share, and the step that each
//! of them takes per pixel.

use crate::chunk::{Chunk, QOI_RUN_MAX};
use crate::pixel::{
    channel_delta, channel_offset, lemma_delta_offset, lemma_offset_delta, qoi_color_hash,
    wrapping_delta, wrapping_offset, QOIRGBA,
};
use vstd::prelude::*;

verus! {

/// The context as a mathematical value: the index table of 64 recently seen
/// pixels, the previous pixel, and the run counter.
///
/// In the encoder the counter holds the length of the run that has been seen
/// and not yet written. In the decoder it holds the number of pixels that the
/// last run chunk still stands for.
pub struct State {
    pub index: Seq<QOIRGBA>,
    pub prev: QOIRGBA,
    pub run: nat,
}

impl State {
    /// The context at the start of a stream: a table of zero pixels, opaque
    /// black as the previous pixel, no run.
    pub open spec fn start() -> State {
        State { index: Seq::new(64, |i: int| QOIRGBA::zero()), prev: QOIRGBA::start(), run: 0 }
    }

    /// The table has its 64 slots, and the run counter stays below the
    /// length at which a run is written out.
    pub open spec fn well_formed(self) -> bool {
        self.index.len() == 64 && self.run < QOI_RUN_MAX
    }

    /// The chunk that the encoder writes for a pixel that differs from the
    /// previous one. The forms are tried in a fixed order: index, small
    /// difference, luma difference, and at last the full channels, three of
    /// them where alpha is unchanged and four where it is not.
    pub open spec fn chunk_for(self, px: QOIRGBA) -> Chunk {
        let dr = wrapping_delta(px.r, self.prev.r);
        let dg = wrapping_delta(px.g, self.prev.g);
        let db = wrapping_delta(px.b, self.prev.b);
        if self.index[px.slot()] == px {
            Chunk::Index { slot: px.slot() as u8 }
        } else if px.a == self.prev.a {
            if -2 <= dr <= 1 && -2 <= dg <= 1 && -2 <= db <= 1 {
                Chunk::Diff { dr: dr as i8, dg: dg as i8, db: db as i8 }
            } else if -32 <= dg <= 31 && -8 <= dr - dg <= 7 && -8 <= db - dg <= 7 {
                Chunk::Luma { dg: dg as i8, dr_dg: (dr - dg) as i8, db_dg: (db - dg) as i8 }
            } else {
                Chunk::Rgb { r: px.r, g: px.g, b: px.b }
            }
        } else {
            Chunk::Rgba { r: px.r, g: px.g, b: px.b, a: px.a }
        }
    }

    /// The pixel that a chunk stands for in this context.
    pub open spec fn pixel_of(self, c: Chunk) -> QOIRGBA {
        match c {
            Chunk::Rgb { r, g, b } => QOIRGBA { r, g, b, a: self.prev.a },
            Chunk::Rgba { r, g, b, a } => QOIRGBA { r, g, b, a },
            Chunk::Index { slot } => self.index[slot as int],
            Chunk::Diff { dr, dg, db } => QOIRGBA {
                r: wrapping_offset(self.prev.r, dr as int),
                g: wrapping_offset(self.prev.g, dg as int),
                b: wrapping_offset(self.prev.b, db as int),
                a: self.prev.a,
            },
            Chunk::Luma { dg, dr_dg, db_dg } => QOIRGBA {
                r: wrapping_offset(self.prev.r, dg + dr_dg),
                g: wrapping_offset(self.prev.g, dg as int),
                b: wrapping_offset(self.prev.b, dg + db_dg),
                a: self.prev.a,
            },
            Chunk::Run { .. } => self.prev,
        }
    }

    /// The context after the decoder has read a chunk and given out the first
    /// pixel that it stands for. Every chunk but an index chunk stores that
    /// pixel in its slot of the table; a run chunk leaves the rest of its
    /// pixels in the run counter.
    pub open spec fn apply(self, c: Chunk) -> State {
        let px = self.pixel_of(c);
        State {
            index: if c is Index {
                self.index
            } else {
                self.index.update(px.slot(), px)
            },
            prev: px,
            run: if let Chunk::Run { len } = c {
                (len - 1) as nat
            } else {
                0
            },
        }
    }

    /// The pixel extends a run: it equals the previous pixel.
    pub open spec fn run_applies(self, px: QOIRGBA) -> bool {
        px == self.prev
    }

    /// The pixel is found in the table, in the slot that its hash names.
    pub open spec fn index_applies(self, px: QOIRGBA) -> bool {
        self.index[px.slot()] == px
    }

    /// Some well-formed small-difference chunk stands for the pixel.
    pub open spec fn diff_applies(self, px: QOIRGBA) -> bool {
        exists|c: Chunk| c is Diff && #[trigger] c.well_formed() && self.pixel_of(c) == px
    }

    /// Some well-formed luma-difference chunk stands for the pixel.
    pub open spec fn luma_applies(self, px: QOIRGBA) -> bool {
        exists|c: Chunk| c is Luma && #[trigger] c.well_formed() && self.pixel_of(c) == px
    }

    /// Some chunk with the three colour channels stands for the pixel.
    pub open spec fn rgb_applies(self, px: QOIRGBA) -> bool {
        exists|c: Chunk| c is Rgb && #[trigger] c.well_formed() && self.pixel_of(c) == px
    }

    /// The bytes of the run that the encoder holds back, if it holds one.
    pub open spec fn held_run(self) -> Seq<u8> {
        if self.run > 0 {
            (Chunk::Run { len: self.run as u8 }).bytes()
        } else {
            Seq::empty()
        }
    }

    /// One step of the encoder: the context after the pixel `px`, and the
    /// bytes written for it. `last` says that `px` is the last pixel of the
    /// image.
    ///
    /// A pixel equal to the previous one extends the run and touches nothing
    /// else; the run is written once it has 62 pixels or the image ends. Any
    /// other pixel first has the pending run written, then its own chunk.
    pub open spec fn encode(self, px: QOIRGBA, last: bool) -> (State, Seq<u8>) {
        if px == self.prev {
            if self.run + 1 == QOI_RUN_MAX || last {
                (
                    State { run: 0, ..self },
                    (Chunk::Run { len: (self.run + 1) as u8 }).bytes(),
                )
            } else {
                (State { run: self.run + 1, ..self }, Seq::empty())
            }
        } else {
            let c = self.chunk_for(px);
            (
                State {
                    index: if c is Index {
                        self.index
                    } else {
                        self.index.update(px.slot(), px)
                    },
                    prev: px,
                    run: 0,
                },
                self.held_run() + c.bytes(),
            )
        }
    }

    /// One step of the decoder: the context after the next pixel, which is
    /// then its previous pixel, and the position in `chunks` after it.
    /// `None` where `chunks` ends before the chunk that is needed.
    ///
    /// While a run lasts no byte is read.
    pub open spec fn decode(self, chunks: Seq<u8>, pos: int) -> Option<(State, int)> {
        if self.run > 0 {
            Some((State { run: (self.run - 1) as nat, ..self }, pos))
        } else {
            match Chunk::parse(chunks.skip(pos)) {
                Some(c) => Some((self.apply(c), pos + c.size())),
                None => None,
            }
        }
    }

    /// The small-difference form applies where alpha is unchanged and each
    /// colour channel has moved by −2 to 1 on the ring of bytes.
    pub proof fn lemma_diff_applies(self, px: QOIRGBA)
        ensures
            self.diff_applies(px) <==> {
                &&& px.a == self.prev.a
                &&& -2 <= wrapping_delta(px.r, self.prev.r) <= 1
                &&& -2 <= wrapping_delta(px.g, self.prev.g) <= 1
                &&& -2 <= wrapping_delta(px.b, self.prev.b) <= 1
            },
    {
        let dr = wrapping_delta(px.r, self.prev.r);
        let dg = wrapping_delta(px.g, self.prev.g);
        let db = wrapping_delta(px.b, self.prev.b);
        if self.diff_applies(px) {
            let c = choose|c: Chunk|
                c is Diff && #[trigger] c.well_formed() && self.pixel_of(c) == px;
            lemma_offset_delta(self.prev.r, c->dr as int);
            lemma_offset_delta(self.prev.g, c->Diff_dg as int);
            lemma_offset_delta(self.prev.b, c->db as int);
        }
        if px.a == self.prev.a && -2 <= dr <= 1 && -2 <= dg <= 1 && -2 <= db <= 1 {
            let c = Chunk::Diff { dr: dr as i8, dg: dg as i8, db: db as i8 };
            lemma_delta_offset(px.r, self.prev.r);
            lemma_delta_offset(px.g, self.prev.g);
            lemma_delta_offset(px.b, self.prev.b);
            assert(c.well_formed() && self.pixel_of(c) == px);
        }
    }

    /// The luma-difference form applies where alpha is unchanged, green has
    /// moved by −32 to 31, and red and blue have each moved by −8 to 7 more
    /// than green.
    pub proof fn lemma_luma_applies(self, px: QOIRGBA)
        ensures
            self.luma_applies(px) <==> {
                &&& px.a == self.prev.a
                &&& -32 <= wrapping_delta(px.g, self.prev.g) <= 31
                &&& -8 <= wrapping_delta(px.r, self.prev.r) - wrapping_delta(px.g, self.prev.g)
                    <= 7
                &&& -8 <= wrapping_delta(px.b, self.prev.b) - wrapping_delta(px.g, self.prev.g)
                    <= 7
            },
    {
        let dr = wrapping_delta(px.r, self.prev.r);
        let dg = wrapping_delta(px.g, self.prev.g);
        let db = wrapping_delta(px.b, self.prev.b);
        if self.luma_applies(px) {
            let c = choose|c: Chunk|
                c is Luma && #[trigger] c.well_formed() && self.pixel_of(c) == px;
            lemma_offset_delta(self.prev.r, c->Luma_dg + c->dr_dg);
            lemma_offset_delta(self.prev.g, c->Luma_dg as int);
            lemma_offset_delta(self.prev.b, c->Luma_dg + c->db_dg);
        }
        if px.a == self.prev.a && -32 <= dg <= 31 && -8 <= dr - dg <= 7 && -8 <= db - dg <= 7 {
            let c = Chunk::Luma { dg: dg as i8, dr_dg: (dr - dg) as i8, db_dg: (db - dg) as i8 };
            lemma_delta_offset(px.r, self.prev.r);
            lemma_delta_offset(px.g, self.prev.g);
            lemma_delta_offset(px.b, self.prev.b);
            assert(c.well_formed() && self.pixel_of(c) == px);
        }
    }

    /// The three-channel form applies where alpha is unchanged.
    pub proof fn lemma_rgb_applies(self, px: QOIRGBA)
        ensures
            self.rgb_applies(px) <==> px.a == self.prev.a,
    {
        if px.a == self.prev.a {
            let c = Chunk::Rgb { r: px.r, g: px.g, b: px.b };
            assert(c.well_formed() && self.pixel_of(c) == px);
        }
    }

    /// The chunk that the encoder picks is well formed, and it stands for the
    /// pixel that it was picked for.
    pub proof fn lemma_chunk_for(self, px: QOIRGBA)
        requires
            self.index.len() == 64,
        ensures
            self.chunk_for(px).well_formed(),
            !(self.chunk_for(px) is Run),
            self.pixel_of(self.chunk_for(px)) == px,
    {
        lemma_delta_offset(px.r, self.prev.r);
        lemma_delta_offset(px.g, self.prev.g);
        lemma_delta_offset(px.b, self.prev.b);
    }
}

/// The context that the codec runs on.
pub struct Context {
    pub index: [QOIRGBA; 64],
    pub prev: QOIRGBA,
    pub run: u8,
}

impl View for Context {
    type V = State;

    open spec fn view(&self) -> State {
        State { index: self.index@, prev: self.prev, run: self.run as nat }
    }
}

impl Context {
    /// The context at the start of a stream.
    pub fn new() -> (ctx: Self)
        ensures
            ctx@ == State::start(),
    {
        let ctx = Context {
            index: [QOIRGBA::new(); 64],
            prev: QOIRGBA { r: 0, g: 0, b: 0, a: 255 },
            run: 0,
        };
        assert(ctx@.index =~= State::start().index);
        ctx
    }

    /// Picks the chunk for a pixel that differs from the previous one.
    pub fn chunk_for(&self, px: QOIRGBA) -> (c: Chunk)
        ensures
            c == self@.chunk_for(px),
            c.well_formed(),
    {
        let slot = qoi_color_hash(&px) % 64;
        let vr = channel_delta(px.r, self.prev.r);
        let vg = channel_delta(px.g, self.prev.g);
        let vb = channel_delta(px.b, self.prev.b);
        let vg_r: i16 = vr as i16 - vg as i16;
        let vg_b: i16 = vb as i16 - vg as i16;
        if self.index[slot] == px {
            Chunk::Index { slot: slot as u8 }
        } else if px.a == self.prev.a {
            if vr > -3 && vr < 2 && vg > -3 && vg < 2 && vb > -3 && vb < 2 {
                Chunk::Diff { dr: vr, dg: vg, db: vb }
            } else if vg_r > -9 && vg_r < 8 && vg > -33 && vg < 32 && vg_b > -9 && vg_b < 8 {
                Chunk::Luma { dg: vg, dr_dg: vg_r as i8, db_dg: vg_b as i8 }
            } else {
                Chunk::Rgb { r: px.r, g: px.g, b: px.b }
            }
        } else {
            Chunk::Rgba { r: px.r, g: px.g, b: px.b, a: px.a }
        }
    }

    /// Takes the next pixel of the image into the encoder and appends to
    /// `bytes` what is written for it.
    pub fn encode(&mut self, px: QOIRGBA, last: bool, bytes: &mut Vec<u8>)
        requires
            old(self)@.well_formed(),
        ensures
            final(self)@ == old(self)@.encode(px, last).0,
            final(bytes)@ == old(bytes)@ + old(self)@.encode(px, last).1,
            final(self)@.well_formed(),
    {
        if px == self.prev {
            self.run += 1;
            if self.run == QOI_RUN_MAX || last {
                (Chunk::Run { len: self.run }).write(bytes);
                self.run = 0;
            } else {
                assert(bytes@ =~= old(bytes)@ + Seq::<u8>::empty());
            }
        } else {
            if self.run > 0 {
                (Chunk::Run { len: self.run }).write(bytes);
                self.run = 0;
            }
            let c = self.chunk_for(px);
            match c {
                Chunk::Index { .. } => {},
                _ => {
                    let slot = qoi_color_hash(&px) % 64;
                    self.index[slot] = px;
                },
            }
            c.write(bytes);
            self.prev = px;
            assert(bytes@ =~= old(bytes)@ + old(self)@.encode(px, last).1);
        }
    }

    /// Changes the context as the decoder does on reading a chunk.
    pub fn apply(&mut self, c: Chunk)
        requires
            c.well_formed(),
        ensures
            final(self)@ == old(self)@.apply(c),
    {
        let prev = self.prev;
        let px = match c {
            Chunk::Rgb { r, g, b } => QOIRGBA { r, g, b, a: prev.a },
            Chunk::Rgba { r, g, b, a } => QOIRGBA { r, g, b, a },
            Chunk::Index { slot } => self.index[slot as usize],
            Chunk::Diff { dr, dg, db } => QOIRGBA {
                r: channel_offset(prev.r, dr),
                g: channel_offset(prev.g, dg),
                b: channel_offset(prev.b, db),
                a: prev.a,
            },
            Chunk::Luma { dg, dr_dg, db_dg } => QOIRGBA {
                r: channel_offset(prev.r, dg + dr_dg),
                g: channel_offset(prev.g, dg),
                b: channel_offset(prev.b, dg + db_dg),
                a: prev.a,
            },
            Chunk::Run { .. } => prev,
        };
        match c {
            Chunk::Index { .. } => {},
            _ => {
                let slot = qoi_color_hash(&px) % 64;
                self.index[slot] = px;
            },
        }
        self.prev = px;
        self.run = match c {
            Chunk::Run { len } => len - 1,
            _ => 0,
        };
    }

    /// Brings the decoder to its next pixel, which is `self.prev` afterwards.
    /// The chunks are read from `data[*p]` on and end before `data[end]`.
    /// Returns `false`, and changes nothing, where they end too early.
    pub fn decode(&mut self, data: &Vec<u8>, p: &mut usize, end: usize) -> (ok: bool)
        requires
            *old(p) <= end <= data.len(),
        ensures
            *old(p) <= *final(p) <= end,
            match old(self)@.decode(data@.subrange(*old(p) as int, end as int), 0) {
                Some((state, size)) => ok && final(self)@ == state && *final(p) == *old(p) + size,
                None => !ok && *final(self) == *old(self) && *final(p) == *old(p),
            },
    {
        let ghost chunks = data@.subrange(*p as int, end as int);
        assert(chunks.skip(0) =~= chunks);
        if self.run > 0 {
            self.run -= 1;
            true
        } else {
            match Chunk::read(data, *p, end) {
                Some(c) => {
                    proof {
                        Chunk::lemma_parse_well_formed(chunks);
                    }
                    self.apply(c);
                    *p += match c {
                        Chunk::Rgb { .. } => 4,
                        Chunk::Rgba { .. } => 5,
                        Chunk::Luma { .. } => 2,
                        _ => 1,
                    };
                    true
                },
                None => false,
            }
        }
    }
}

} // verus!
