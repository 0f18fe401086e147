//! The encoder: from a header and a raster to a stream.

use crate::context::{Context, State};
use crate::header::{
    padding, qoi_write_32, write_padding, QOIHeader, QOI_HEADER_SIZE, QOI_MAGIC, QOI_PADDING_SIZE,
};
use crate::pixel::QOIRGBA;
use crate::raster::pixels_of;
use vstd::prelude::*;

verus! {

/// The encoder after the first `k` pixels of an image: its context, and the
/// chunk bytes that it has written so far.
pub open spec fn encoder_after(pixels: Seq<QOIRGBA>, k: nat) -> (State, Seq<u8>)
    decreases k,
{
    if k == 0 {
        (State::start(), Seq::empty())
    } else {
        let (state, written) = encoder_after(pixels, (k - 1) as nat);
        let (next, more) = state.encode(pixels[k - 1], k == pixels.len());
        (next, written + more)
    }
}

/// The chunk bytes of a whole image.
pub open spec fn encoded_chunks(pixels: Seq<QOIRGBA>) -> Seq<u8> {
    encoder_after(pixels, pixels.len()).1
}

/// The stream of an image: the header, one chunk after the other, the end
/// marker. `None` where the raster is empty or the header is not valid.
pub open spec fn encoding(header: QOIHeader, data: Seq<u8>) -> Option<Seq<u8>> {
    if data.len() == 0 || !header.valid() {
        None
    } else {
        Some(
            header.bytes() + encoded_chunks(
                pixels_of(data, header.channels as int, header.pixel_count()),
            ) + padding(),
        )
    }
}

/// The encoder's context stays well formed.
pub proof fn lemma_encoder_well_formed(pixels: Seq<QOIRGBA>, k: nat)
    ensures
        encoder_after(pixels, k).0.well_formed(),
    decreases k,
{
    if k > 0 {
        lemma_encoder_well_formed(pixels, (k - 1) as nat);
    }
}

/// The last pixel of an image leaves no run held back.
pub proof fn lemma_encoder_done(pixels: Seq<QOIRGBA>)
    requires
        pixels.len() > 0,
    ensures
        encoder_after(pixels, pixels.len()).0.run == 0,
{
}

/// What the encoder has written stays: the bytes after `k` pixels are the
/// start of the bytes after `m >= k` pixels.
pub proof fn lemma_encoder_grows(pixels: Seq<QOIRGBA>, k: nat, m: nat)
    requires
        k <= m,
    ensures
        encoder_after(pixels, k).1.len() <= encoder_after(pixels, m).1.len(),
        encoder_after(pixels, m).1 == encoder_after(pixels, k).1 + encoder_after(pixels, m).1.skip(
            encoder_after(pixels, k).1.len() as int,
        ),
    decreases m,
{
    let small = encoder_after(pixels, k).1;
    let large = encoder_after(pixels, m).1;
    if k < m {
        lemma_encoder_grows(pixels, k, (m - 1) as nat);
    }
    assert(large =~= small + large.skip(small.len() as int));
}

/// The encoder writes at most one byte more per pixel than the raster
/// holds: five where the raster has an alpha channel, and four where it has
/// none, so that every pixel is opaque. A run that is held back counts as
/// written.
pub proof fn lemma_encoder_size(pixels: Seq<QOIRGBA>, k: nat, channels: int)
    requires
        k <= pixels.len(),
        channels == 3 || channels == 4,
        channels == 3 ==> forall|i: int| 0 <= i < pixels.len() ==> (#[trigger] pixels[i]).a == 255,
    ensures
        encoder_after(pixels, k).1.len() + encoder_after(pixels, k).0.held_run().len()
            <= k * (channels + 1),
        channels == 3 ==> encoder_after(pixels, k).0.prev.a == 255,
    decreases k,
{
    if k > 0 {
        lemma_encoder_size(pixels, (k - 1) as nat, channels);
        lemma_encoder_well_formed(pixels, (k - 1) as nat);
        let (state, written) = encoder_after(pixels, (k - 1) as nat);
        let px = pixels[k - 1];
        assert(state.chunk_for(px).bytes().len() <= channels + 1);
        assert(k * (channels + 1) == (k - 1) * (channels + 1) + channels + 1)
            by (nonlinear_arith);
    }
}

/// A stream is at most as long as header, end marker and one byte more per
/// pixel than the raster holds.
pub proof fn lemma_encoding_size(header: QOIHeader, data: Seq<u8>)
    requires
        encoding(header, data) is Some,
    ensures
        encoding(header, data).unwrap().len() <= header.width * header.height * (header.channels
            + 1) + QOI_HEADER_SIZE + QOI_PADDING_SIZE,
{
    header.lemma_pixel_count();
    let n = header.pixel_count();
    let pixels = pixels_of(data, header.channels as int, n);
    lemma_encoder_size(pixels, n, header.channels as int);
}

/// Encodes the raster `data` of the image that `header` describes, and stores
/// the length of the stream in `out_len`.
///
/// The raster holds the pixels row by row, `header.channels` bytes each;
/// bytes beyond the last pixel are not looked at. Returns `None`, and leaves
/// `out_len` alone, where the raster is empty or the header is not valid.
pub fn qoi_encode(data: Vec<u8>, header: QOIHeader, out_len: &mut usize) -> (out: Option<Vec<u8>>)
    requires
        data.len() > 0 && header.valid() ==> data.len() >= header.width * header.height
            * header.channels,
    ensures
        match out {
            Some(bytes) => {
                &&& encoding(header, data@) == Some(bytes@)
                &&& *final(out_len) == bytes.len()
                &&& bytes.len() <= header.width * header.height * (header.channels + 1)
                    + QOI_HEADER_SIZE + QOI_PADDING_SIZE
            },
            None => encoding(header, data@) is None && *final(out_len) == *old(out_len),
        },
{
    if data.is_empty() || !header.is_valid() {
        return None;
    }
    proof {
        header.lemma_pixel_count();
    }
    let channels = header.channels as usize;
    let px_count = header.width as usize * header.height as usize;
    assert(px_count * (channels + 1) < 2_000_000_000 && px_count * channels >= channels)
        by (nonlinear_arith)
        requires
            1 <= px_count < 400_000_000,
            channels <= 4,
    ;
    let max_size = px_count * (channels + 1) + QOI_HEADER_SIZE + QOI_PADDING_SIZE;

    let mut bytes = Vec::with_capacity(max_size);

    qoi_write_32(&mut bytes, QOI_MAGIC);
    qoi_write_32(&mut bytes, header.width);
    qoi_write_32(&mut bytes, header.height);
    bytes.push(header.channels);
    bytes.push(header.colorspace);
    assert(bytes@ =~= header.bytes());

    let mut ctx = Context::new();

    let px_len = px_count * channels;
    let px_end = px_len - channels;
    let ghost pixels = pixels_of(data@, channels as int, px_count as nat);
    let ghost mut done: nat = 0;

    let mut px_pos: usize = 0;
    while px_pos < px_len
        invariant
            channels == 3 || channels == 4,
            px_len == px_count * channels,
            px_end == px_len - channels,
            px_len <= data.len(),
            px_pos == done * channels,
            done <= px_count,
            pixels == pixels_of(data@, channels as int, px_count as nat),
            ctx@ == encoder_after(pixels, done).0,
            ctx@.well_formed(),
            bytes@ == header.bytes() + encoder_after(pixels, done).1,
        decreases px_len - px_pos,
    {
        let px = QOIRGBA {
            r: data[px_pos],
            g: data[px_pos + 1],
            b: data[px_pos + 2],
            a: if channels == 4 {
                data[px_pos + 3]
            } else {
                255
            },
        };
        assert(px == pixels[done as int]);
        ctx.encode(px, px_pos == px_end, &mut bytes);
        px_pos += channels;
        proof {
            done = done + 1;
            assert(bytes@ =~= header.bytes() + encoder_after(pixels, done).1);
        }
    }

    assert(done == px_count) by (nonlinear_arith)
        requires
            done <= px_count,
            done * channels >= px_count * channels,
            channels >= 3,
    ;
    assert(pixels.len() == header.pixel_count());
    write_padding(&mut bytes);
    assert(bytes@ == header.bytes() + encoded_chunks(pixels) + padding());
    proof {
        lemma_encoding_size(header, data@);
    }

    *out_len = bytes.len();
    Some(bytes)
}

} // verus!
