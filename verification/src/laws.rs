//! What holds of the encoder and the decoder together.

use crate::chunk::{Chunk, QOI_RUN_MAX};
use crate::context::State;
use crate::decode::{
    chunks_of, decoded_pixels, decoded_prefix, decoder_after, decoding, lemma_decoder_extend,
    lemma_decoder_reads, lemma_decoder_run, lemma_prefix_extend, output_channels,
};
use crate::encode::{
    encoded_chunks, encoder_after, encoding, lemma_encoder_done, lemma_encoder_grows,
    lemma_encoder_well_formed,
};
use crate::header::{padding, QOIHeader};
use crate::pixel::QOIRGBA;
use crate::raster::{lemma_raster_pixels, pixel_at, pixels_of, raster};
use vstd::prelude::*;

verus! {

/// The table of the decoder and that of the encoder hold the same pixels,
/// but for one slot at most: that of opaque black, in which the decoder may
/// hold opaque black while the encoder still holds the zero pixel.
pub open spec fn tables_agree(dec: Seq<QOIRGBA>, enc: Seq<QOIRGBA>) -> bool {
    &&& dec.len() == 64
    &&& enc.len() == 64
    &&& forall|i: int|
        0 <= i < 64 ==> #[trigger] dec[i] == enc[i] || (i == QOIRGBA::start().slot() && enc[i]
            == QOIRGBA::zero() && dec[i] == QOIRGBA::start())
}

/// The encoder has met nothing but opaque black so far, and so has stored
/// nothing in its slot.
pub open spec fn untouched(pixels: Seq<QOIRGBA>, k: nat, enc: State) -> bool {
    &&& enc.prev == QOIRGBA::start()
    &&& enc.index[QOIRGBA::start().slot()] == QOIRGBA::zero()
    &&& (k == 0 || pixels[0] == QOIRGBA::start())
}

/// The one difference that there can be between the two tables: the decoder
/// holds opaque black in its slot and the encoder holds the zero pixel there.
pub open spec fn black_slot_differs(dec: Seq<QOIRGBA>, enc: Seq<QOIRGBA>) -> bool {
    &&& enc[QOIRGBA::start().slot()] == QOIRGBA::zero()
    &&& dec[QOIRGBA::start().slot()] == QOIRGBA::start()
}

/// How encoder and decoder stand to each other after `k` pixels of an
/// image. The encoder holds back a run of `r` pixels, all equal to its
/// previous pixel. On the bytes written so far the decoder gives out the
/// `k - r` pixels before them, ends where the bytes end, and then holds the
/// same previous pixel and a table that agrees with the encoder's.
pub open spec fn in_step(pixels: Seq<QOIRGBA>, k: nat) -> bool {
    let (enc, written) = encoder_after(pixels, k);
    let synced = (k - enc.run) as nat;
    let dec = decoder_after(written, synced);
    &&& enc.well_formed()
    &&& enc.run <= k
    &&& forall|j: int| k - enc.run <= j < k ==> pixels[j] == enc.prev
    &&& enc.index[enc.prev.slot()] == enc.prev || untouched(pixels, k, enc)
    &&& dec is Some
    &&& dec.unwrap().1 == written.len()
    &&& dec.unwrap().0.run == 0
    &&& dec.unwrap().0.prev == enc.prev
    &&& tables_agree(dec.unwrap().0.index, enc.index)
    &&& k == 0 || pixels[0] != QOIRGBA::start() ==> dec.unwrap().0.index == enc.index
    &&& synced > 0 && pixels[0] == QOIRGBA::start() && enc.index[QOIRGBA::start().slot()]
        == QOIRGBA::zero() ==> black_slot_differs(dec.unwrap().0.index, enc.index)
    &&& decoded_prefix(written, synced) == pixels.take(synced as int)
}

/// Encoder and decoder start out in step.
proof fn lemma_in_step_start(pixels: Seq<QOIRGBA>)
    ensures
        in_step(pixels, 0),
{
    assert(decoded_prefix(Seq::<u8>::empty(), 0) =~= pixels.take(0));
}

/// A pixel that extends the run and is held back keeps the two in step.
proof fn lemma_in_step_run_held(pixels: Seq<QOIRGBA>, k: nat)
    requires
        k < pixels.len(),
        in_step(pixels, k),
        pixels[k as int] == encoder_after(pixels, k).0.prev,
        encoder_after(pixels, k).0.run + 1 < QOI_RUN_MAX,
        k + 1 < pixels.len(),
    ensures
        in_step(pixels, k + 1),
{
    let (enc, written) = encoder_after(pixels, k);
    let (enc2, written2) = encoder_after(pixels, k + 1);
    assert(written2 =~= written);
}

/// A pixel that ends a run by filling it up, or by being the last of the
/// image, keeps the two in step.
proof fn lemma_in_step_run_written(pixels: Seq<QOIRGBA>, k: nat)
    requires
        k < pixels.len(),
        in_step(pixels, k),
        pixels[k as int] == encoder_after(pixels, k).0.prev,
        encoder_after(pixels, k).0.run + 1 == QOI_RUN_MAX || k + 1 == pixels.len(),
    ensures
        in_step(pixels, k + 1),
{
    let (enc, written) = encoder_after(pixels, k);
    let (enc2, written2) = encoder_after(pixels, k + 1);
    let synced = (k - enc.run) as nat;
    let dec = decoder_after(written, synced).unwrap().0;
    let c = Chunk::Run { len: (enc.run + 1) as u8 };
    assert(written2 == written + c.bytes());
    assert(written2 =~= written + c.bytes() + Seq::<u8>::empty());

    lemma_decoder_reads(written, c, Seq::empty(), synced);
    let first = decoder_after(written2, synced + 1).unwrap().0;
    assert(first == dec.apply(c));
    lemma_decoder_run(written2, synced + 1, enc.run);
    assert(synced + 1 + enc.run == k + 1);
    let dec2 = decoder_after(written2, k + 1).unwrap().0;
    assert(dec2.index == dec.index.update(enc.prev.slot(), enc.prev));
    assert(tables_agree(dec2.index, enc2.index));
    if pixels[0] != QOIRGBA::start() {
        assert(dec2.index =~= enc2.index);
    }

    lemma_prefix_extend(written, c.bytes(), synced);
    assert forall|j: int| 0 <= j < k + 1 implies #[trigger] decoded_prefix(written2, k + 1)[j]
        == pixels[j] by {
        if j < synced {
            assert(decoded_prefix(written2, synced)[j] == pixels.take(synced as int)[j]);
        } else {
            lemma_decoder_run(written2, synced + 1, (j - synced) as nat);
        }
    }
    assert(decoded_prefix(written2, k + 1) =~= pixels.take(k + 1 as int));
}

/// Had the encoder written the run that it holds back, the decoder would
/// give out all `k` pixels on the bytes, and the two would be in step.
proof fn lemma_held_run_read(pixels: Seq<QOIRGBA>, k: nat)
    requires
        k <= pixels.len(),
        in_step(pixels, k),
    ensures
        ({
            let (enc, written) = encoder_after(pixels, k);
            let dec = decoder_after(written + enc.held_run(), k);
            &&& dec is Some
            &&& dec.unwrap().1 == (written + enc.held_run()).len()
            &&& dec.unwrap().0.run == 0
            &&& dec.unwrap().0.prev == enc.prev
            &&& tables_agree(dec.unwrap().0.index, enc.index)
            &&& k == 0 || pixels[0] != QOIRGBA::start() ==> dec.unwrap().0.index == enc.index
            &&& k > 0 && pixels[0] == QOIRGBA::start() && enc.index[QOIRGBA::start().slot()]
                == QOIRGBA::zero() ==> black_slot_differs(dec.unwrap().0.index, enc.index)
            &&& decoded_prefix(written + enc.held_run(), k) == pixels.take(k as int)
        }),
{
    let (enc, written) = encoder_after(pixels, k);
    let synced = (k - enc.run) as nat;
    let dec = decoder_after(written, synced).unwrap().0;
    let all = written + enc.held_run();
    if enc.run > 0 {
        let c = Chunk::Run { len: enc.run as u8 };
        assert(all =~= written + c.bytes() + Seq::<u8>::empty());
        lemma_decoder_reads(written, c, Seq::empty(), synced);
        lemma_decoder_run(all, synced + 1, (enc.run - 1) as nat);
        let dec2 = decoder_after(all, k).unwrap().0;
        assert(dec2.index == dec.index.update(enc.prev.slot(), enc.prev));
        assert(tables_agree(dec2.index, enc.index));
        if pixels[0] != QOIRGBA::start() {
            assert(dec2.index =~= enc.index);
        }
        lemma_prefix_extend(written, c.bytes(), synced);
        assert forall|j: int| 0 <= j < k implies #[trigger] decoded_prefix(all, k)[j]
            == pixels[j] by {
            if j < synced {
                assert(decoded_prefix(all, synced)[j] == pixels.take(synced as int)[j]);
            } else {
                lemma_decoder_run(all, synced + 1, (j - synced) as nat);
            }
        }
        assert(decoded_prefix(all, k) =~= pixels.take(k as int));
    } else {
        assert(all =~= written);
    }
}

/// A pixel that differs from the previous one keeps the two in step: the
/// decoder reads the run that was held back, then the pixel's own chunk.
proof fn lemma_in_step_chunk(pixels: Seq<QOIRGBA>, k: nat)
    requires
        k < pixels.len(),
        in_step(pixels, k),
        pixels[k as int] != encoder_after(pixels, k).0.prev,
    ensures
        in_step(pixels, k + 1),
{
    let (enc, written) = encoder_after(pixels, k);
    let (enc2, written2) = encoder_after(pixels, k + 1);
    let px = pixels[k as int];
    let c = enc.chunk_for(px);
    let mid = written + enc.held_run();
    lemma_held_run_read(pixels, k);
    let dec = decoder_after(mid, k).unwrap().0;
    enc.lemma_chunk_for(px);
    assert(written2 =~= mid + c.bytes() + Seq::<u8>::empty());
    lemma_decoder_reads(mid, c, Seq::empty(), k);
    let dec2 = decoder_after(written2, k + 1).unwrap().0;
    assert(dec2 == dec.apply(c));
    assert(dec.pixel_of(c) == px);
    assert(tables_agree(dec2.index, enc2.index));
    if k == 0 || pixels[0] != QOIRGBA::start() {
        assert(dec2.index =~= enc2.index);
    }
    lemma_prefix_extend(mid, c.bytes(), k);
    assert(decoded_prefix(written2, k + 1) =~= pixels.take(k as int).push(px));
    assert(pixels.take(k as int).push(px) =~= pixels.take(k + 1 as int));
}

/// Encoder and decoder are in step after every pixel of an image.
pub proof fn lemma_in_step(pixels: Seq<QOIRGBA>, k: nat)
    requires
        k <= pixels.len(),
    ensures
        in_step(pixels, k),
    decreases k,
{
    if k == 0 {
        lemma_in_step_start(pixels);
    } else {
        let j = (k - 1) as nat;
        lemma_in_step(pixels, j);
        let enc = encoder_after(pixels, j).0;
        if pixels[j as int] != enc.prev {
            lemma_in_step_chunk(pixels, j);
        } else if enc.run + 1 == QOI_RUN_MAX || k == pixels.len() {
            lemma_in_step_run_written(pixels, j);
        } else {
            lemma_in_step_run_held(pixels, j);
        }
    }
}

/// The chunks of an image hold the pixels of the image.
pub proof fn lemma_chunks_round_trip(pixels: Seq<QOIRGBA>)
    requires
        pixels.len() > 0,
    ensures
        decoded_pixels(encoded_chunks(pixels), pixels.len()) == Some(pixels),
{
    lemma_in_step(pixels, pixels.len());
    lemma_encoder_done(pixels);
    assert(pixels.take(pixels.len() as int) =~= pixels);
}

/// A run that the encoder holds back after `k` pixels is written later as
/// a run chunk of at least that length, and that chunk is the next after the
/// bytes written so far.
proof fn lemma_held_run_written(pixels: Seq<QOIRGBA>, k: nat)
    requires
        k <= pixels.len(),
        encoder_after(pixels, k).0.run > 0,
    ensures
        ({
            let (enc, written) = encoder_after(pixels, k);
            let next = Chunk::parse(encoded_chunks(pixels).skip(written.len() as int));
            &&& written.len() < encoded_chunks(pixels).len()
            &&& next is Some
            &&& next.unwrap() is Run
            &&& next.unwrap().well_formed()
            &&& next.unwrap()->len >= enc.run
        }),
    decreases pixels.len() - k,
{
    let (enc, written) = encoder_after(pixels, k);
    let all = encoded_chunks(pixels);
    lemma_encoder_well_formed(pixels, k);
    if k == pixels.len() {
        lemma_encoder_done(pixels);
    } else {
        let (enc2, written2) = encoder_after(pixels, k + 1);
        let px = pixels[k as int];
        if px == enc.prev && !(enc.run + 1 == QOI_RUN_MAX || k + 1 == pixels.len()) {
            assert(written2 =~= written);
            lemma_held_run_written(pixels, k + 1);
        } else {
            let c = Chunk::Run {
                len: if px == enc.prev {
                    (enc.run + 1) as u8
                } else {
                    enc.run as u8
                },
            };
            let after = written2.skip(written.len() + 1 as int);
            assert(written2 =~= written + (c.bytes() + after));
            c.lemma_parse_bytes(after);
            lemma_encoder_grows(pixels, k + 1, pixels.len());
            let rest = all.skip(written2.len() as int);
            assert(all.skip(written.len() as int) =~= c.bytes() + after + rest);
            Chunk::lemma_parse_extend(c.bytes() + after, rest);
        }
    }
}

/// On the chunks of a whole image the decoder is, after every pixel, where
/// the encoder was after that pixel: it holds the same previous pixel, and a
/// table that agrees with the encoder's.
pub proof fn lemma_decoder_follows(pixels: Seq<QOIRGBA>, k: nat)
    requires
        k <= pixels.len(),
    ensures
        ({
            let enc = encoder_after(pixels, k).0;
            let dec = decoder_after(encoded_chunks(pixels), k);
            &&& dec is Some
            &&& dec.unwrap().0.prev == enc.prev
            &&& tables_agree(dec.unwrap().0.index, enc.index)
            &&& k == 0 || pixels[0] != QOIRGBA::start() ==> dec.unwrap().0.index == enc.index
            &&& k > 0 && pixels[0] == QOIRGBA::start() && enc.index[QOIRGBA::start().slot()]
                == QOIRGBA::zero() ==> black_slot_differs(dec.unwrap().0.index, enc.index)
        }),
{
    let (enc, written) = encoder_after(pixels, k);
    let all = encoded_chunks(pixels);
    let synced = (k - enc.run) as nat;
    lemma_in_step(pixels, k);
    lemma_encoder_grows(pixels, k, pixels.len());
    let rest = all.skip(written.len() as int);
    lemma_decoder_extend(written, rest, synced);
    let dec = decoder_after(all, synced).unwrap().0;
    if enc.run > 0 {
        lemma_held_run_written(pixels, k);
        let c = Chunk::parse(rest).unwrap();
        assert(decoder_after(all, synced + 1) == Some((dec.apply(c), written.len() + 1 as int)));
        lemma_decoder_run(all, synced + 1, (enc.run - 1) as nat);
        let dec2 = decoder_after(all, k).unwrap().0;
        assert(dec2.index == dec.index.update(enc.prev.slot(), enc.prev));
        assert(tables_agree(dec2.index, enc.index));
        if pixels[0] != QOIRGBA::start() {
            assert(dec2.index =~= enc.index);
        }
    }
}

/// Context synchrony: after every pixel of an image the decoder, on the
/// image's stream, holds the index table and the previous pixel that the
/// encoder held after that pixel.
///
/// One case is left out, in which the tables differ in the slot of opaque
/// black. An image that starts with opaque black starts with a run of the
/// pixel that the codec starts from. The decoder stores the pixel of a run
/// in the table and the encoder does not, so the decoder then holds opaque
/// black in a slot in which the encoder holds the zero pixel, until a pixel
/// is stored there.
pub proof fn lemma_context_synchrony(header: QOIHeader, data: Seq<u8>, k: nat)
    requires
        header.valid(),
        data.len() == header.width * header.height * header.channels,
        k <= header.pixel_count(),
        !(k > 0 && pixel_at(data, header.channels as int, 0) == QOIRGBA::start() && encoder_after(
            pixels_of(data, header.channels as int, header.pixel_count()),
            k,
        ).0.index[QOIRGBA::start().slot()] == QOIRGBA::zero()),
    ensures
        encoding(header, data) is Some,
        ({
            let stream = encoding(header, data).unwrap();
            let enc = encoder_after(
                pixels_of(data, header.channels as int, header.pixel_count()),
                k,
            ).0;
            let dec = decoder_after(chunks_of(stream), k);
            &&& dec is Some
            &&& dec.unwrap().0.index == enc.index
            &&& dec.unwrap().0.prev == enc.prev
        }),
{
    header.lemma_pixel_count();
    let pixels = pixels_of(data, header.channels as int, header.pixel_count());
    let chunks = encoded_chunks(pixels);
    let stream = encoding(header, data).unwrap();
    assert(chunks_of(stream) =~= chunks);
    lemma_decoder_follows(pixels, k);
    let enc = encoder_after(pixels, k).0;
    let dec = decoder_after(chunks, k).unwrap().0;
    assert(dec.index =~= enc.index);
}

/// The case that context synchrony leaves out is one in which the tables do
/// differ: the decoder holds opaque black where the encoder holds the zero
/// pixel.
pub proof fn lemma_black_slot_differs(header: QOIHeader, data: Seq<u8>, k: nat)
    requires
        header.valid(),
        data.len() == header.width * header.height * header.channels,
        0 < k <= header.pixel_count(),
        pixel_at(data, header.channels as int, 0) == QOIRGBA::start(),
        encoder_after(
            pixels_of(data, header.channels as int, header.pixel_count()),
            k,
        ).0.index[QOIRGBA::start().slot()] == QOIRGBA::zero(),
    ensures
        encoding(header, data) is Some,
        ({
            let stream = encoding(header, data).unwrap();
            let enc = encoder_after(
                pixels_of(data, header.channels as int, header.pixel_count()),
                k,
            ).0;
            let dec = decoder_after(chunks_of(stream), k);
            &&& dec is Some
            &&& dec.unwrap().0.index[QOIRGBA::start().slot()] == QOIRGBA::start()
            &&& dec.unwrap().0.index != enc.index
        }),
{
    header.lemma_pixel_count();
    let pixels = pixels_of(data, header.channels as int, header.pixel_count());
    let chunks = encoded_chunks(pixels);
    let stream = encoding(header, data).unwrap();
    assert(chunks_of(stream) =~= chunks);
    lemma_decoder_follows(pixels, k);
}

/// Chunk priority: where several forms apply to a pixel, the encoder takes
/// the first of them in the order run, index, small difference, luma
/// difference, three channels, four channels.
///
/// A pixel that extends the run gets no chunk of its own and leaves the
/// table alone; the encoder writes nothing for it, or the run that it
/// completes. Any other pixel has the run that was held back written before
/// its own chunk.
pub proof fn lemma_chunk_priority(state: State, px: QOIRGBA, last: bool)
    requires
        state.well_formed(),
    ensures
        state.run_applies(px) ==> {
            &&& state.encode(px, last).0.index == state.index
            &&& state.encode(px, last).0.prev == state.prev
            &&& state.encode(px, last).1 == if state.run + 1 == QOI_RUN_MAX || last {
                (Chunk::Run { len: (state.run + 1) as u8 }).bytes()
            } else {
                Seq::empty()
            }
        },
        !state.run_applies(px) ==> state.encode(px, last).1 == state.held_run()
            + state.chunk_for(px).bytes(),
        state.index_applies(px) ==> state.chunk_for(px) == (Chunk::Index {
            slot: px.slot() as u8,
        }),
        !state.index_applies(px) && state.diff_applies(px) ==> state.chunk_for(px) is Diff,
        !state.index_applies(px) && !state.diff_applies(px) && state.luma_applies(px)
            ==> state.chunk_for(px) is Luma,
        !state.index_applies(px) && !state.diff_applies(px) && !state.luma_applies(px)
            && state.rgb_applies(px) ==> state.chunk_for(px) is Rgb,
        !state.index_applies(px) && !state.diff_applies(px) && !state.luma_applies(px)
            && !state.rgb_applies(px) ==> state.chunk_for(px) is Rgba,
        state.chunk_for(px).well_formed(),
        state.pixel_of(state.chunk_for(px)) == px,
{
    state.lemma_diff_applies(px);
    state.lemma_luma_applies(px);
    state.lemma_rgb_applies(px);
    state.lemma_chunk_for(px);
}

/// After a pixel that the encoder has written a chunk for, the slot that the
/// pixel's hash names holds the pixel. A pixel that extends the run leaves
/// the table as it is.
pub proof fn lemma_encoder_stores_pixel(state: State, px: QOIRGBA, last: bool)
    requires
        state.well_formed(),
    ensures
        !state.run_applies(px) ==> state.encode(px, last).0.index[px.slot()] == px,
        state.run_applies(px) ==> state.encode(px, last).0.index == state.index,
{
}

/// After every chunk but an index chunk that the decoder has read, the slot
/// that the hash of the chunk's pixel names holds that pixel. An index chunk
/// leaves the table as it is.
pub proof fn lemma_decoder_stores_pixel(state: State, c: Chunk)
    requires
        state.index.len() == 64,
    ensures
        !(c is Index) ==> state.apply(c).index[state.apply(c).prev.slot()] == state.apply(c).prev,
        c is Index ==> state.apply(c).index == state.index,
{
}

/// Every run chunk that the encoder writes stands for at least one pixel
/// and for 62 at most: the run that it completes with a pixel, and the run
/// that it held back before a pixel that differs.
pub proof fn lemma_run_lengths(state: State, px: QOIRGBA, last: bool)
    requires
        state.well_formed(),
    ensures
        state.run_applies(px) ==> (Chunk::Run { len: (state.run + 1) as u8 }).well_formed(),
        state.run > 0 ==> (Chunk::Run { len: state.run as u8 }).well_formed(),
        state.encode(px, last).0.well_formed(),
        last ==> state.encode(px, last).0.run == 0,
{
}

/// The end marker is not data: two streams of one length that differ in
/// their last eight bytes only hold the same header and the same raster.
pub proof fn lemma_end_marker_unread(stream: Seq<u8>, other: Seq<u8>, channels: int)
    requires
        stream.len() == other.len(),
        stream.len() >= 8 ==> stream.take(stream.len() - 8) == other.take(other.len() - 8),
    ensures
        decoding(stream, channels) == decoding(other, channels),
{
    if stream.len() >= 14 + 8 {
        let n = stream.len() - 8;
        assert forall|i: int| 0 <= i < n implies stream[i] == other[i] by {
            assert(stream.take(n)[i] == other.take(n)[i]);
        }
        assert(chunks_of(stream) =~= chunks_of(other));
    }
}

/// Framing: every stream starts with the header, whose first four bytes
/// spell `qoif`, and ends with the end marker, seven zero bytes and a one.
pub proof fn lemma_framing(header: QOIHeader, data: Seq<u8>)
    requires
        encoding(header, data) is Some,
    ensures
        ({
            let stream = encoding(header, data).unwrap();
            &&& stream.len() >= 14 + 8
            &&& stream.take(14) == header.bytes()
            &&& stream.take(4) == seq![0x71u8, 0x6fu8, 0x69u8, 0x66u8]
            &&& stream.skip(stream.len() - 8) == seq![0u8, 0u8, 0u8, 0u8, 0u8, 0u8, 0u8, 1u8]
        }),
{
    let stream = encoding(header, data).unwrap();
    assert(header.bytes().len() == 14);
    assert(stream.take(14) =~= header.bytes());
    assert(stream.take(4) =~= seq![0x71u8, 0x6fu8, 0x69u8, 0x66u8]);
    assert(stream.skip(stream.len() - 8) =~= padding());
    assert(padding() =~= seq![0u8, 0u8, 0u8, 0u8, 0u8, 0u8, 0u8, 1u8]);
}

/// Determinism: the stream of an image depends on nothing but its header and
/// its raster.
pub proof fn lemma_encoding_deterministic(
    header1: QOIHeader,
    data1: Seq<u8>,
    header2: QOIHeader,
    data2: Seq<u8>,
)
    requires
        header1 == header2,
        data1 == data2,
    ensures
        encoding(header1, data1) == encoding(header2, data2),
{
}

/// Decoding the stream of an image gives back its header and its pixels,
/// laid out with the number of channels that was requested.
pub proof fn lemma_decode_encoded(header: QOIHeader, data: Seq<u8>, channels: int)
    requires
        header.valid(),
        data.len() == header.width * header.height * header.channels,
        channels == 0 || channels == 3 || channels == 4,
    ensures
        encoding(header, data) is Some,
        decoding(encoding(header, data).unwrap(), channels) == Some(
            (
                header,
                raster(
                    pixels_of(data, header.channels as int, header.pixel_count()),
                    output_channels(header, channels),
                ),
            ),
        ),
{
    header.lemma_pixel_count();
    let pixels = pixels_of(data, header.channels as int, header.pixel_count());
    let chunks = encoded_chunks(pixels);
    let stream = encoding(header, data).unwrap();
    assert(stream =~= header.bytes() + (chunks + padding()));
    header.lemma_read_bytes(chunks + padding());
    assert(chunks_of(stream) =~= chunks);
    lemma_chunks_round_trip(pixels);
}

/// Round trip: decoding the stream of an image gives back its header and
/// its raster, byte for byte, both where the channels of the header are
/// requested and where 0 is.
pub proof fn lemma_round_trip(header: QOIHeader, data: Seq<u8>, channels: int)
    requires
        header.valid(),
        data.len() == header.width * header.height * header.channels,
        channels == 0 || channels == header.channels,
    ensures
        encoding(header, data) is Some,
        decoding(encoding(header, data).unwrap(), channels) == Some((header, data)),
{
    header.lemma_pixel_count();
    let n = header.pixel_count();
    let c = header.channels as int;
    assert(data.len() == n * c) by (nonlinear_arith)
        requires
            n == header.width * header.height,
            data.len() == header.width * header.height * header.channels,
            c == header.channels,
    ;
    lemma_decode_encoded(header, data, channels);
    lemma_raster_pixels(data, c, n);
    assert(data.take(n * c) =~= data);
}

} // verus!
