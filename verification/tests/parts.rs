use qoi_codec::chunk::Chunk;
use qoi_codec::context::Context;
use qoi_codec::header::{write_padding, QOIHeader};
use qoi_codec::pixel::{channel_delta, channel_offset};
use qoi_codec::{qoi_color_hash, qoi_read_32, qoi_write_32, QOIRGBA, QOI_SRGB};

#[test]
fn new_pixel_is_zero() {
    assert_eq!(QOIRGBA::new(), QOIRGBA { r: 0, g: 0, b: 0, a: 0 });
}

#[test]
fn color_hash_formula() {
    assert_eq!(qoi_color_hash(&QOIRGBA::new()), 0);
    assert_eq!(qoi_color_hash(&QOIRGBA { r: 1, g: 0, b: 0, a: 0 }), 3);
    assert_eq!(qoi_color_hash(&QOIRGBA { r: 0, g: 1, b: 0, a: 0 }), 5);
    assert_eq!(qoi_color_hash(&QOIRGBA { r: 0, g: 0, b: 1, a: 0 }), 7);
    assert_eq!(qoi_color_hash(&QOIRGBA { r: 0, g: 0, b: 0, a: 1 }), 11);
    assert_eq!(qoi_color_hash(&QOIRGBA { r: 0, g: 0, b: 0, a: 255 }), 2805);
    assert_eq!(qoi_color_hash(&QOIRGBA { r: 255, g: 255, b: 255, a: 255 }), 6630);
    assert_eq!(qoi_color_hash(&QOIRGBA { r: 10, g: 20, b: 30, a: 40 }), 780);
}

#[test]
fn srgb_tag_is_zero() {
    assert_eq!(QOI_SRGB, 0);
}

#[test]
fn write_32_is_big_endian() {
    let mut bytes = vec![9];
    qoi_write_32(&mut bytes, 0x0102_0304);
    assert_eq!(bytes, vec![9, 1, 2, 3, 4]);
    qoi_write_32(&mut bytes, 0);
    qoi_write_32(&mut bytes, u32::MAX);
    qoi_write_32(&mut bytes, 0x716f_6966);
    assert_eq!(bytes[5..], [0, 0, 0, 0, 255, 255, 255, 255, b'q', b'o', b'i', b'f']);
}

#[test]
fn read_32_is_big_endian() {
    let bytes = vec![9, 1, 2, 3, 4, 0xff, 0xfe, 0xfd, 0xfc];
    let mut p = 1;
    assert_eq!(qoi_read_32(&bytes, &mut p), 0x0102_0304);
    assert_eq!(p, 5);
    assert_eq!(qoi_read_32(&bytes, &mut p), 0xfffe_fdfc);
    assert_eq!(p, 9);
}

#[test]
fn read_32_undoes_write_32() {
    for v in [0u32, 1, 255, 256, 65535, 65536, 0x00ff_ffff, 0x0100_0000, 399_999_999, u32::MAX] {
        let mut bytes = Vec::new();
        qoi_write_32(&mut bytes, v);
        let mut p = 0;
        assert_eq!(qoi_read_32(&bytes, &mut p), v);
    }
}

#[test]
fn padding_bytes() {
    let mut bytes = vec![5];
    write_padding(&mut bytes);
    assert_eq!(bytes, vec![5, 0, 0, 0, 0, 0, 0, 0, 1]);
}

#[test]
fn header_validity() {
    let ok = QOIHeader { width: 1, height: 1, channels: 3, colorspace: 0 };
    assert!(ok.is_valid());
    assert!(QOIHeader { channels: 4, colorspace: 1, ..ok }.is_valid());
    assert!(QOIHeader { width: 19999, height: 20000, ..ok }.is_valid());
    assert!(QOIHeader { width: 1, height: 399_999_999, ..ok }.is_valid());
    assert!(!QOIHeader { width: 1, height: 400_000_000, ..ok }.is_valid());
    assert!(!QOIHeader { width: 20000, height: 20000, ..ok }.is_valid());
    assert!(!QOIHeader { width: 0, ..ok }.is_valid());
    assert!(!QOIHeader { height: 0, ..ok }.is_valid());
    assert!(!QOIHeader { channels: 2, ..ok }.is_valid());
    assert!(!QOIHeader { channels: 5, ..ok }.is_valid());
    assert!(!QOIHeader { colorspace: 2, ..ok }.is_valid());
}

#[test]
fn channel_delta_wraps() {
    assert_eq!(channel_delta(5, 3), 2);
    assert_eq!(channel_delta(3, 5), -2);
    assert_eq!(channel_delta(255, 0), -1);
    assert_eq!(channel_delta(0, 255), 1);
    assert_eq!(channel_delta(127, 0), 127);
    assert_eq!(channel_delta(128, 0), -128);
    assert_eq!(channel_delta(0, 128), -128);
    assert_eq!(channel_delta(0, 127), -127);
    assert_eq!(channel_delta(200, 200), 0);
}

#[test]
fn channel_delta_is_wrapping_sub() {
    for cur in 0..=255u8 {
        for prev in 0..=255u8 {
            assert_eq!(channel_delta(cur, prev), (cur as i8).wrapping_sub(prev as i8));
        }
    }
}

#[test]
fn channel_offset_wraps() {
    assert_eq!(channel_offset(3, 2), 5);
    assert_eq!(channel_offset(0, -1), 255);
    assert_eq!(channel_offset(255, 1), 0);
    assert_eq!(channel_offset(254, 38), 36);
    assert_eq!(channel_offset(1, -40), 217);
    assert_eq!(channel_offset(128, -128), 0);
    assert_eq!(channel_offset(128, 127), 255);
}

#[test]
fn channel_offset_undoes_channel_delta() {
    for cur in 0..=255u8 {
        for prev in 0..=255u8 {
            assert_eq!(channel_offset(prev, channel_delta(cur, prev)), cur);
        }
    }
}

#[test]
fn chunk_bytes() {
    let cases: Vec<(Chunk, Vec<u8>)> = vec![
        (Chunk::Rgb { r: 1, g: 2, b: 3 }, vec![0xfe, 1, 2, 3]),
        (Chunk::Rgba { r: 1, g: 2, b: 3, a: 4 }, vec![0xff, 1, 2, 3, 4]),
        (Chunk::Index { slot: 0 }, vec![0x00]),
        (Chunk::Index { slot: 63 }, vec![0x3f]),
        (Chunk::Diff { dr: -2, dg: -2, db: -2 }, vec![0x40]),
        (Chunk::Diff { dr: 1, dg: 1, db: 1 }, vec![0x7f]),
        (Chunk::Diff { dr: -1, dg: 0, db: 0 }, vec![0x5a]),
        (Chunk::Diff { dr: 1, dg: -2, db: 0 }, vec![0x72]),
        (Chunk::Luma { dg: -32, dr_dg: -8, db_dg: -8 }, vec![0x80, 0x00]),
        (Chunk::Luma { dg: 31, dr_dg: 7, db_dg: 7 }, vec![0xbf, 0xff]),
        (Chunk::Luma { dg: 0, dr_dg: -1, db_dg: 2 }, vec![0xa0, 0x7a]),
        (Chunk::Run { len: 1 }, vec![0xc0]),
        (Chunk::Run { len: 62 }, vec![0xfd]),
    ];
    for (chunk, expected) in cases {
        let mut bytes = vec![0xaa];
        chunk.write(&mut bytes);
        assert_eq!(bytes[0], 0xaa);
        assert_eq!(bytes[1..], expected[..]);
        assert_eq!(Chunk::read(&bytes, 1, bytes.len()), Some(chunk));
        assert_eq!(Chunk::read(&expected, 0, expected.len()), Some(chunk));
    }
}

#[test]
fn chunk_read_every_first_byte() {
    // Whatever the first byte, a chunk is read where enough bytes follow, and
    // writing it gives the same bytes.
    for b1 in 0..=255u8 {
        for b2 in [0u8, 0x0f, 0x5a, 0xf0, 0xff] {
            let data = vec![b1, b2, 3, 4, 5, 6];
            let chunk = Chunk::read(&data, 0, data.len()).unwrap();
            let mut bytes = Vec::new();
            chunk.write(&mut bytes);
            assert_eq!(bytes[..], data[..bytes.len()]);
            match chunk {
                Chunk::Rgb { .. } => assert_eq!(b1, 0xfe),
                Chunk::Rgba { .. } => assert_eq!(b1, 0xff),
                Chunk::Index { slot } => assert_eq!(b1, slot),
                Chunk::Diff { .. } => assert_eq!(b1 >> 6, 1),
                Chunk::Luma { .. } => assert_eq!(b1 >> 6, 2),
                Chunk::Run { len } => {
                    assert_eq!(b1 >> 6, 3);
                    assert!(1 <= len && len <= 62);
                }
            }
        }
    }
}

#[test]
fn chunk_read_stops_at_end() {
    let data = vec![0xfe, 1, 2, 3, 0xff, 1, 2, 3, 4, 0x80, 0x88];
    assert_eq!(Chunk::read(&data, 0, 3), None);
    assert_eq!(Chunk::read(&data, 0, 4), Some(Chunk::Rgb { r: 1, g: 2, b: 3 }));
    assert_eq!(Chunk::read(&data, 4, 8), None);
    assert_eq!(Chunk::read(&data, 4, 9), Some(Chunk::Rgba { r: 1, g: 2, b: 3, a: 4 }));
    assert_eq!(Chunk::read(&data, 9, 10), None);
    assert_eq!(Chunk::read(&data, 9, 11), Some(Chunk::Luma { dg: -32, dr_dg: 0, db_dg: 0 }));
    assert_eq!(Chunk::read(&data, 11, 11), None);
    assert_eq!(Chunk::read(&data, 1, 1), None);
    assert_eq!(Chunk::read(&data, 1, 2), Some(Chunk::Index { slot: 1 }));
}

#[test]
fn context_starts_from_opaque_black() {
    let ctx = Context::new();
    assert_eq!(ctx.index, [QOIRGBA::new(); 64]);
    assert_eq!(ctx.prev, QOIRGBA { r: 0, g: 0, b: 0, a: 255 });
    assert_eq!(ctx.run, 0);
}

#[test]
fn context_chunk_order() {
    let mut ctx = Context::new();
    let px = |r, g, b, a| QOIRGBA { r, g, b, a };
    assert_eq!(ctx.chunk_for(px(0, 0, 0, 0)), Chunk::Index { slot: 0 });
    assert_eq!(ctx.chunk_for(px(1, 1, 1, 255)), Chunk::Diff { dr: 1, dg: 1, db: 1 });
    assert_eq!(ctx.chunk_for(px(2, 1, 1, 255)), Chunk::Luma { dg: 1, dr_dg: 1, db_dg: 0 });
    assert_eq!(ctx.chunk_for(px(100, 1, 1, 255)), Chunk::Rgb { r: 100, g: 1, b: 1 });
    assert_eq!(ctx.chunk_for(px(1, 1, 1, 254)), Chunk::Rgba { r: 1, g: 1, b: 1, a: 254 });
    // Once a pixel is in the table, the index chunk wins over the others.
    ctx.index[4] = px(1, 1, 1, 255);
    assert_eq!(ctx.chunk_for(px(1, 1, 1, 255)), Chunk::Index { slot: 4 });
}

#[test]
fn context_encode_step() {
    let mut ctx = Context::new();
    let mut bytes = Vec::new();
    let black = QOIRGBA { r: 0, g: 0, b: 0, a: 255 };
    let grey = QOIRGBA { r: 1, g: 1, b: 1, a: 255 };
    ctx.encode(black, false, &mut bytes);
    ctx.encode(black, false, &mut bytes);
    assert_eq!(bytes, Vec::<u8>::new());
    assert_eq!(ctx.run, 2);
    assert_eq!(ctx.index, [QOIRGBA::new(); 64]);
    ctx.encode(grey, false, &mut bytes);
    assert_eq!(bytes, vec![0xc1, 0x7f]);
    assert_eq!(ctx.run, 0);
    assert_eq!(ctx.prev, grey);
    assert_eq!(ctx.index[4], grey);
    ctx.encode(grey, true, &mut bytes);
    assert_eq!(bytes, vec![0xc1, 0x7f, 0xc0]);
    assert_eq!(ctx.run, 0);
}

#[test]
fn context_decode_step() {
    let data = vec![0xc1, 0x7f, 0xfe, 9, 9];
    let mut ctx = Context::new();
    let mut p = 0;
    assert!(ctx.decode(&data, &mut p, data.len()));
    assert_eq!((p, ctx.run), (1, 1));
    assert_eq!(ctx.prev, QOIRGBA { r: 0, g: 0, b: 0, a: 255 });
    assert_eq!(ctx.index[53], QOIRGBA { r: 0, g: 0, b: 0, a: 255 });
    assert!(ctx.decode(&data, &mut p, data.len()));
    assert_eq!((p, ctx.run), (1, 0));
    assert!(ctx.decode(&data, &mut p, data.len()));
    assert_eq!((p, ctx.run), (2, 0));
    assert_eq!(ctx.prev, QOIRGBA { r: 1, g: 1, b: 1, a: 255 });
    assert_eq!(ctx.index[4], QOIRGBA { r: 1, g: 1, b: 1, a: 255 });
    // The next chunk is cut off: nothing changes.
    assert!(!ctx.decode(&data, &mut p, data.len()));
    assert_eq!((p, ctx.run), (2, 0));
    assert_eq!(ctx.prev, QOIRGBA { r: 1, g: 1, b: 1, a: 255 });
}

#[test]
fn encoder_and_decoder_contexts_agree() {
    // Feed pixels to an encoder context and its bytes to a decoder context,
    // one pixel at a time where no run is held back.
    let pixels = [
        (9u8, 9u8, 9u8, 255u8),
        (9, 9, 9, 255),
        (10, 9, 9, 255),
        (0, 0, 0, 0),
        (10, 9, 9, 255),
        (200, 3, 77, 20),
        (200, 3, 77, 20),
        (200, 3, 77, 20),
        (9, 9, 9, 255),
    ];
    let mut enc = Context::new();
    let mut dec = Context::new();
    let mut bytes = Vec::new();
    let mut p = 0;
    let mut decoded = 0;
    for (i, &(r, g, b, a)) in pixels.iter().enumerate() {
        enc.encode(QOIRGBA { r, g, b, a }, i + 1 == pixels.len(), &mut bytes);
        if enc.run == 0 {
            while decoded <= i {
                assert!(dec.decode(&bytes, &mut p, bytes.len()));
                let (r, g, b, a) = pixels[decoded];
                assert_eq!(dec.prev, QOIRGBA { r, g, b, a });
                decoded += 1;
            }
            assert_eq!(p, bytes.len());
            assert_eq!(dec.index, enc.index);
            assert_eq!(dec.prev, enc.prev);
        }
    }
    assert_eq!(decoded, pixels.len());
}

#[test]
fn initial_run_leaves_one_slot_apart() {
    // An image that starts with opaque black starts with a run. The decoder
    // stores the pixel of the run, the encoder does not.
    let black = QOIRGBA { r: 0, g: 0, b: 0, a: 255 };
    let mut enc = Context::new();
    let mut dec = Context::new();
    let mut bytes = Vec::new();
    let mut p = 0;
    enc.encode(black, true, &mut bytes);
    assert!(dec.decode(&bytes, &mut p, bytes.len()));
    assert_eq!(dec.prev, enc.prev);
    assert_eq!(enc.index[53], QOIRGBA::new());
    assert_eq!(dec.index[53], black);
    for slot in 0..64 {
        if slot != 53 {
            assert_eq!(dec.index[slot], enc.index[slot]);
        }
    }
}

#[test]
fn tables_meet_again_once_the_slot_is_stored() {
    // (64,0,0,255) shares the slot of opaque black.
    let black = QOIRGBA { r: 0, g: 0, b: 0, a: 255 };
    let other = QOIRGBA { r: 64, g: 0, b: 0, a: 255 };
    let mut enc = Context::new();
    let mut dec = Context::new();
    let mut bytes = Vec::new();
    let mut p = 0;
    enc.encode(black, false, &mut bytes);
    enc.encode(other, true, &mut bytes);
    assert!(dec.decode(&bytes, &mut p, bytes.len()));
    assert_ne!(dec.index, enc.index);
    assert!(dec.decode(&bytes, &mut p, bytes.len()));
    assert_eq!(dec.index, enc.index);
    assert_eq!(dec.prev, enc.prev);
    assert_eq!(enc.index[53], other);
}
