//! The decoder: from a stream to a header and a raster.

use crate::chunk::Chunk;
use crate::context::{Context, State};
use crate::header::{
    be_value, lemma_be_value_range, qoi_read_32, QOIHeader, QOI_HEADER_SIZE, QOI_MAGIC,
    QOI_PADDING_SIZE,
};
use crate::pixel::QOIRGBA;
use crate::raster::{lemma_raster_len, pixel_bytes, raster};
use vstd::prelude::*;

verus! {

/// The decoder after it has given out `k` pixels: its context, and its
/// position in the chunk bytes. `None` where the chunk bytes end before the
/// `k`-th pixel.
pub open spec fn decoder_after(chunks: Seq<u8>, k: nat) -> Option<(State, int)>
    decreases k,
{
    if k == 0 {
        Some((State::start(), 0))
    } else {
        match decoder_after(chunks, (k - 1) as nat) {
            Some((state, pos)) => state.decode(chunks, pos),
            None => None,
        }
    }
}

/// The first `k` pixels that the decoder gives out: each is the previous
/// pixel of the context after it.
pub open spec fn decoded_prefix(chunks: Seq<u8>, k: nat) -> Seq<QOIRGBA> {
    Seq::new(k, |i: int| decoder_after(chunks, (i + 1) as nat).unwrap().0.prev)
}

/// The `n` pixels that the chunk bytes hold, or `None` where they end before
/// that many pixels.
pub open spec fn decoded_pixels(chunks: Seq<u8>, n: nat) -> Option<Seq<QOIRGBA>> {
    if decoder_after(chunks, n) is Some {
        Some(decoded_prefix(chunks, n))
    } else {
        None
    }
}

/// The chunk bytes of a stream: what stands between the header and the end
/// marker.
pub open spec fn chunks_of(stream: Seq<u8>) -> Seq<u8> {
    stream.subrange(QOI_HEADER_SIZE as int, stream.len() - QOI_PADDING_SIZE)
}

/// The number of channels of the raster that the decoder gives out: the
/// requested number, or that of the header where 0 is requested.
pub open spec fn output_channels(header: QOIHeader, channels: int) -> int {
    if channels == 0 {
        header.channels as int
    } else {
        channels
    }
}

/// The header and the raster that a stream holds, the raster with the
/// requested number of channels.
///
/// `None` where the stream is shorter than header and end marker together,
/// where the requested number of channels is none of 0, 3 and 4, where the
/// stream does not start with the magic or its header is not valid, and
/// where the chunks between header and end marker end before the image is
/// complete. The eight bytes of the end marker are never read as chunks.
pub open spec fn decoding(stream: Seq<u8>, channels: int) -> Option<(QOIHeader, Seq<u8>)> {
    if stream.len() < QOI_HEADER_SIZE + QOI_PADDING_SIZE {
        None
    } else if channels != 0 && channels != 3 && channels != 4 {
        None
    } else {
        let header = QOIHeader::read(stream);
        if be_value(stream, 0) != QOI_MAGIC || !header.valid() {
            None
        } else {
            match decoded_pixels(chunks_of(stream), header.pixel_count()) {
                Some(pixels) => Some((header, raster(pixels, output_channels(header, channels)))),
                None => None,
            }
        }
    }
}

/// Once the chunk bytes have run out, they stay run out.
pub proof fn lemma_decoder_stuck(chunks: Seq<u8>, k: nat, n: nat)
    requires
        k <= n,
        decoder_after(chunks, k) is None,
    ensures
        decoder_after(chunks, n) is None,
    decreases n,
{
    if k < n {
        lemma_decoder_stuck(chunks, k, (n - 1) as nat);
    }
}

/// The decoder never stands beyond the end of the chunk bytes.
pub proof fn lemma_decoder_position(chunks: Seq<u8>, k: nat)
    requires
        decoder_after(chunks, k) is Some,
    ensures
        0 <= decoder_after(chunks, k).unwrap().1 <= chunks.len(),
    decreases k,
{
    if k > 0 {
        let (state, pos) = decoder_after(chunks, (k - 1) as nat).unwrap();
        lemma_decoder_position(chunks, (k - 1) as nat);
        if state.run == 0 {
            Chunk::lemma_parse_well_formed(chunks.skip(pos));
        }
    }
}

/// What the decoder has done on some chunk bytes it does on any longer
/// sequence that starts with them.
pub proof fn lemma_decoder_extend(chunks: Seq<u8>, more: Seq<u8>, k: nat)
    requires
        decoder_after(chunks, k) is Some,
    ensures
        decoder_after(chunks + more, k) == decoder_after(chunks, k),
    decreases k,
{
    if k > 0 {
        let (state, pos) = decoder_after(chunks, (k - 1) as nat).unwrap();
        lemma_decoder_extend(chunks, more, (k - 1) as nat);
        lemma_decoder_position(chunks, (k - 1) as nat);
        if state.run == 0 {
            Chunk::lemma_parse_extend(chunks.skip(pos), more);
            assert((chunks + more).skip(pos) =~= chunks.skip(pos) + more);
        }
    }
}

/// While a run lasts the decoder gives out its previous pixel and changes
/// nothing but the run counter.
pub proof fn lemma_decoder_run(chunks: Seq<u8>, k: nat, m: nat)
    requires
        decoder_after(chunks, k) is Some,
        m <= decoder_after(chunks, k).unwrap().0.run,
    ensures
        decoder_after(chunks, k + m) == Some(
            (
                State {
                    run: (decoder_after(chunks, k).unwrap().0.run - m) as nat,
                    ..decoder_after(chunks, k).unwrap().0
                },
                decoder_after(chunks, k).unwrap().1,
            ),
        ),
    decreases m,
{
    if m > 0 {
        lemma_decoder_run(chunks, k, (m - 1) as nat);
    }
}

/// Where the decoder stands at the end of some chunk bytes with no run left,
/// and the bytes of a well-formed chunk follow, it reads that chunk.
pub proof fn lemma_decoder_reads(chunks: Seq<u8>, c: Chunk, more: Seq<u8>, k: nat)
    requires
        decoder_after(chunks, k) is Some,
        decoder_after(chunks, k).unwrap().0.run == 0,
        decoder_after(chunks, k).unwrap().1 == chunks.len(),
        c.well_formed(),
    ensures
        decoder_after(chunks + c.bytes() + more, k + 1) == Some(
            (decoder_after(chunks, k).unwrap().0.apply(c), (chunks.len() + c.size()) as int),
        ),
{
    let all = chunks + c.bytes() + more;
    assert(all =~= chunks + (c.bytes() + more));
    lemma_decoder_extend(chunks, c.bytes() + more, k);
    c.lemma_parse_bytes(more);
    assert(all.skip(chunks.len() as int) =~= c.bytes() + more);
}

/// The pixels that the decoder has given out on some chunk bytes it gives
/// out on any longer sequence that starts with them.
pub proof fn lemma_prefix_extend(chunks: Seq<u8>, more: Seq<u8>, k: nat)
    requires
        decoder_after(chunks, k) is Some,
    ensures
        decoded_prefix(chunks + more, k) == decoded_prefix(chunks, k),
{
    assert forall|i: int| 0 <= i < k implies #[trigger] decoded_prefix(chunks + more, k)[i]
        == decoded_prefix(chunks, k)[i] by {
        if decoder_after(chunks, (i + 1) as nat) is None {
            lemma_decoder_stuck(chunks, (i + 1) as nat, k);
        }
        lemma_decoder_extend(chunks, more, (i + 1) as nat);
    }
    assert(decoded_prefix(chunks + more, k) =~= decoded_prefix(chunks, k));
}

/// Decodes the stream in the first `size` bytes of `data`. Stores the
/// stream's header in `header` and returns the raster, with `channels`
/// channels, or with as many as the header says where `channels` is 0.
///
/// Returns `None`, and leaves `header` alone, where the stream is refused.
pub fn qoi_decode(data: Vec<u8>, size: usize, header: &mut QOIHeader, channels: usize) -> (out:
    Option<Vec<u8>>)
    requires
        size <= data.len(),
    ensures
        match out {
            Some(pixels) => {
                &&& decoding(data@.take(size as int), channels as int) == Some(
                    (*final(header), pixels@),
                )
                &&& pixels.len() == final(header).width * final(header).height * output_channels(
                    *final(header),
                    channels as int,
                )
            },
            None => decoding(data@.take(size as int), channels as int) is None && *final(header)
                == *old(header),
        },
{
    if data.is_empty() || (channels != 0 && channels != 3 && channels != 4) || size
        < QOI_HEADER_SIZE + QOI_PADDING_SIZE {
        return None;
    }
    let ghost stream = data@.take(size as int);

    let mut p: usize = 0;
    let header_magic = qoi_read_32(&data, &mut p);
    let width = qoi_read_32(&data, &mut p);
    let height = qoi_read_32(&data, &mut p);
    let parsed = QOIHeader { width, height, channels: data[p], colorspace: data[p + 1] };
    p += 2;
    proof {
        lemma_be_value_range(stream, 4);
        lemma_be_value_range(stream, 8);
        assert(be_value(stream, 0) == be_value(data@, 0));
        assert(be_value(stream, 4) == be_value(data@, 4));
        assert(be_value(stream, 8) == be_value(data@, 8));
        assert(parsed == QOIHeader::read(stream));
    }

    if header_magic != QOI_MAGIC || !parsed.is_valid() {
        return None;
    }
    proof {
        parsed.lemma_pixel_count();
    }

    let out_channels = if channels == 0 {
        parsed.channels as usize
    } else {
        channels
    };
    let px_count = parsed.width as usize * parsed.height as usize;
    assert(px_count * out_channels < 1_600_000_000) by (nonlinear_arith)
        requires
            px_count < 400_000_000,
            out_channels <= 4,
    ;
    let px_len = px_count * out_channels;
    let mut pixels = Vec::<u8>::with_capacity(px_len);

    let mut ctx = Context::new();
    let chunks_len = size - QOI_PADDING_SIZE;
    let ghost chunks = chunks_of(stream);

    let mut done: usize = 0;
    while done < px_count
        invariant
            out_channels == output_channels(parsed, channels as int),
            out_channels == 3 || out_channels == 4,
            channels == 0 || channels == 3 || channels == 4,
            done <= px_count,
            px_count == parsed.pixel_count(),
            QOI_HEADER_SIZE <= p <= chunks_len,
            chunks_len + QOI_PADDING_SIZE == size,
            size <= data.len(),
            stream == data@.take(size as int),
            chunks == chunks_of(stream),
            parsed == QOIHeader::read(stream),
            parsed.valid(),
            be_value(stream, 0) == QOI_MAGIC,
            *header == *old(header),
            decoder_after(chunks, done as nat) == Some((ctx@, p - QOI_HEADER_SIZE)),
            pixels@ == raster(decoded_prefix(chunks, done as nat), out_channels as int),
        decreases px_count - done,
    {
        proof {
            assert(chunks.skip(p - QOI_HEADER_SIZE) =~= data@.subrange(
                p as int,
                chunks_len as int,
            ));
            assert(data@.subrange(p as int, chunks_len as int).skip(0) =~= data@.subrange(
                p as int,
                chunks_len as int,
            ));
        }
        if !ctx.decode(&data, &mut p, chunks_len) {
            proof {
                lemma_decoder_stuck(chunks, (done + 1) as nat, px_count as nat);
            }
            return None;
        }
        let px = ctx.prev;
        pixels.push(px.r);
        pixels.push(px.g);
        pixels.push(px.b);
        if out_channels == 4 {
            pixels.push(px.a);
        }
        done += 1;
        proof {
            let prefix = decoded_prefix(chunks, done as nat);
            assert(prefix.drop_last() =~= decoded_prefix(chunks, (done - 1) as nat));
            assert(prefix.last() == px);
            assert(pixels@ =~= raster(prefix.drop_last(), out_channels as int) + pixel_bytes(
                px,
                out_channels as int,
            ));
        }
    }

    proof {
        lemma_raster_len(decoded_prefix(chunks, done as nat), out_channels as int);
    }
    *header = parsed;
    Some(pixels)
}

} // verus!
