//! Rasters: pixels laid out row by row, three or four bytes each.

use crate::pixel::QOIRGBA;
use vstd::prelude::*;

verus! {

/// Pixel number `i` of a raster with the given number of channels. Where the
/// raster has no alpha channel the pixel is opaque.
pub open spec fn pixel_at(data: Seq<u8>, channels: int, i: int) -> QOIRGBA {
    QOIRGBA {
        r: data[channels * i],
        g: data[channels * i + 1],
        b: data[channels * i + 2],
        a: if channels == 4 {
            data[channels * i + 3]
        } else {
            255
        },
    }
}

/// The first `n` pixels of a raster.
pub open spec fn pixels_of(data: Seq<u8>, channels: int, n: nat) -> Seq<QOIRGBA> {
    Seq::new(n, |i: int| pixel_at(data, channels, i))
}

/// The bytes of one pixel in a raster: alpha is left out where the raster has
/// three channels.
pub open spec fn pixel_bytes(px: QOIRGBA, channels: int) -> Seq<u8> {
    if channels == 4 {
        seq![px.r, px.g, px.b, px.a]
    } else {
        seq![px.r, px.g, px.b]
    }
}

/// The raster of a sequence of pixels.
pub open spec fn raster(pixels: Seq<QOIRGBA>, channels: int) -> Seq<u8>
    decreases pixels.len(),
{
    if pixels.len() == 0 {
        Seq::empty()
    } else {
        raster(pixels.drop_last(), channels) + pixel_bytes(pixels.last(), channels)
    }
}

/// A raster has as many bytes as it has pixels times channels.
pub proof fn lemma_raster_len(pixels: Seq<QOIRGBA>, channels: int)
    requires
        channels == 3 || channels == 4,
    ensures
        raster(pixels, channels).len() == pixels.len() * channels,
    decreases pixels.len(),
{
    if pixels.len() > 0 {
        lemma_raster_len(pixels.drop_last(), channels);
    }
}

/// Laying out the pixels of a raster gives the raster again.
pub proof fn lemma_raster_pixels(data: Seq<u8>, channels: int, n: nat)
    requires
        channels == 3 || channels == 4,
        n * channels <= data.len(),
    ensures
        raster(pixels_of(data, channels, n), channels) == data.take(n * channels),
    decreases n,
{
    let pixels = pixels_of(data, channels, n);
    if n > 0 {
        let m = (n - 1) as nat;
        lemma_raster_pixels(data, channels, m);
        assert(pixels.drop_last() =~= pixels_of(data, channels, m));
        assert(data.take(m * channels) + pixel_bytes(pixels.last(), channels) =~= data.take(
            n * channels,
        ));
    } else {
        assert(data.take(n * channels) =~= Seq::<u8>::empty());
    }
}

} // verus!
