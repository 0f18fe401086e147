use qoi_codec::{qoi_decode, qoi_encode, QOIHeader};

// A second encoder and a second decoder, written in the plainest way on
// bytes, to hold the library against.

fn slot_of(px: [u8; 4]) -> usize {
    (px[0] as usize * 3 + px[1] as usize * 5 + px[2] as usize * 7 + px[3] as usize * 11) % 64
}

fn plain_encode(data: &[u8], header: &QOIHeader) -> Vec<u8> {
    let channels = header.channels as usize;
    let count = data.len() / channels;
    let mut out = b"qoif".to_vec();
    out.extend_from_slice(&header.width.to_be_bytes());
    out.extend_from_slice(&header.height.to_be_bytes());
    out.push(header.channels);
    out.push(header.colorspace);

    let mut table = [[0u8; 4]; 64];
    let mut prev = [0u8, 0, 0, 255];
    let mut run = 0u8;
    for (i, raw) in data.chunks(channels).enumerate() {
        let mut px = prev;
        px[..channels].copy_from_slice(raw);
        if px == prev {
            run += 1;
            if run == 62 || i + 1 == count {
                out.push(0xc0 | (run - 1));
                run = 0;
            }
            continue;
        }
        if run > 0 {
            out.push(0xc0 | (run - 1));
            run = 0;
        }
        let slot = slot_of(px);
        if table[slot] == px {
            out.push(slot as u8);
        } else {
            table[slot] = px;
            let vr = px[0].wrapping_sub(prev[0]) as i8;
            let vg = px[1].wrapping_sub(prev[1]) as i8;
            let vb = px[2].wrapping_sub(prev[2]) as i8;
            let vg_r = vr.wrapping_sub(vg);
            let vg_b = vb.wrapping_sub(vg);
            if px[3] != prev[3] {
                out.extend_from_slice(&[0xff, px[0], px[1], px[2], px[3]]);
            } else if (-2..=1).contains(&vr) && (-2..=1).contains(&vg) && (-2..=1).contains(&vb) {
                out.push(0x40 | ((vr + 2) as u8) << 4 | ((vg + 2) as u8) << 2 | (vb + 2) as u8);
            } else if (-32..=31).contains(&vg)
                && (-8..=7).contains(&vg_r)
                && (-8..=7).contains(&vg_b)
            {
                out.push(0x80 | (vg + 32) as u8);
                out.push(((vg_r + 8) as u8) << 4 | (vg_b + 8) as u8);
            } else {
                out.extend_from_slice(&[0xfe, px[0], px[1], px[2]]);
            }
        }
        prev = px;
    }
    out.extend_from_slice(&[0, 0, 0, 0, 0, 0, 0, 1]);
    out
}

// Decodes `count` pixels from chunk bytes; `None` where they end too early.
fn plain_decode(chunks: &[u8], count: usize, channels: usize) -> Option<Vec<u8>> {
    let mut out = Vec::new();
    let mut table = [[0u8; 4]; 64];
    let mut px = [0u8, 0, 0, 255];
    let mut run = 0u8;
    let mut p = 0;
    for _ in 0..count {
        if run > 0 {
            run -= 1;
        } else {
            let b1 = *chunks.get(p)?;
            let mut store = true;
            match b1 {
                0xfe => {
                    px[..3].copy_from_slice(chunks.get(p + 1..p + 4)?);
                    p += 4;
                }
                0xff => {
                    px.copy_from_slice(chunks.get(p + 1..p + 5)?);
                    p += 5;
                }
                0x00..=0x3f => {
                    px = table[b1 as usize];
                    store = false;
                    p += 1;
                }
                0x40..=0x7f => {
                    px[0] = px[0].wrapping_add(b1 >> 4 & 3).wrapping_sub(2);
                    px[1] = px[1].wrapping_add(b1 >> 2 & 3).wrapping_sub(2);
                    px[2] = px[2].wrapping_add(b1 & 3).wrapping_sub(2);
                    p += 1;
                }
                0x80..=0xbf => {
                    let b2 = *chunks.get(p + 1)?;
                    let vg = (b1 & 0x3f).wrapping_sub(32);
                    px[0] = px[0].wrapping_add(vg).wrapping_add(b2 >> 4).wrapping_sub(8);
                    px[1] = px[1].wrapping_add(vg);
                    px[2] = px[2].wrapping_add(vg).wrapping_add(b2 & 15).wrapping_sub(8);
                    p += 2;
                }
                _ => {
                    run = b1 & 0x3f;
                    p += 1;
                }
            }
            if store {
                table[slot_of(px)] = px;
            }
        }
        out.extend_from_slice(&px[..channels]);
    }
    Some(out)
}

fn shuffle(seed: &mut u32) -> u32 {
    *seed ^= *seed << 13;
    *seed ^= *seed >> 17;
    *seed ^= *seed << 5;
    *seed
}

// Images in which every chunk form comes up: few colours, small steps,
// repeats.
fn sample_image(seed: &mut u32, count: usize, channels: usize) -> Vec<u8> {
    let mut data = Vec::new();
    let mut px = [0u8, 0, 0, 255];
    for _ in 0..count {
        match shuffle(seed) % 8 {
            0 | 1 => {}
            2 => {
                for c in 0..3 {
                    px[c] = px[c].wrapping_add((shuffle(seed) % 5) as u8).wrapping_sub(2);
                }
            }
            3 => {
                let g = (shuffle(seed) % 66) as u8;
                px[1] = px[1].wrapping_add(g).wrapping_sub(33);
                px[0] = px[0].wrapping_add(g).wrapping_add((shuffle(seed) % 18) as u8).wrapping_sub(42);
                px[2] = px[2].wrapping_add(g).wrapping_add((shuffle(seed) % 18) as u8).wrapping_sub(42);
            }
            4 => {
                for c in 0..3 {
                    px[c] = shuffle(seed) as u8;
                }
            }
            5 => {
                for c in 0..4 {
                    px[c] = (shuffle(seed) % 3) as u8 * 64;
                }
            }
            6 => {
                px = [0, 0, 0, if shuffle(seed) % 2 == 0 { 255 } else { 0 }];
            }
            _ => {
                px[3] = px[3].wrapping_add((shuffle(seed) % 3) as u8);
            }
        }
        if channels == 3 {
            px[3] = 255;
        }
        data.extend_from_slice(&px[..channels]);
    }
    data
}

#[test]
fn encoder_matches_plain_encoder() {
    let mut seed = 0x6d2b_79f5;
    for round in 0..400u32 {
        let channels = 3 + (round % 2) as u8;
        let width = 1 + shuffle(&mut seed) % 40;
        let height = 1 + shuffle(&mut seed) % 12;
        let header = QOIHeader { width, height, channels, colorspace: (round % 3 == 0) as u8 };
        let data = sample_image(&mut seed, (width * height) as usize, channels as usize);
        let expected = plain_encode(&data, &header);
        let mut len = 0;
        let got = qoi_encode(data, header, &mut len).unwrap();
        assert_eq!(got, expected);
        assert_eq!(len, expected.len());
    }
}

#[test]
fn decoder_matches_plain_decoder_on_streams() {
    let mut seed = 0x85eb_ca6b;
    for round in 0..400u32 {
        let channels = 3 + (round % 2) as u8;
        let width = 1 + shuffle(&mut seed) % 40;
        let height = 1 + shuffle(&mut seed) % 12;
        let header = QOIHeader { width, height, channels, colorspace: 0 };
        let count = (width * height) as usize;
        let data = sample_image(&mut seed, count, channels as usize);
        let stream = plain_encode(&data, &header);
        for requested in [0usize, 3, 4] {
            let out = if requested == 0 { channels as usize } else { requested };
            let expected = plain_decode(&stream[14..stream.len() - 8], count, out);
            let mut got_header = QOIHeader { width: 0, height: 0, channels: 0, colorspace: 0 };
            let got = qoi_decode(stream.clone(), stream.len(), &mut got_header, requested);
            assert_eq!(got, expected);
            assert_eq!(got_header, header);
        }
    }
}

#[test]
fn decoder_matches_plain_decoder_on_any_bytes() {
    // Chunk bytes drawn at random: many of them end too early, the others
    // decode to something.
    let mut seed = 0xc2b2_ae35;
    let mut complete = 0;
    let mut cut_off = 0;
    for _ in 0..2000 {
        let width = 1 + shuffle(&mut seed) % 30;
        let len = (shuffle(&mut seed) % 40) as usize;
        let mut chunks = Vec::new();
        for _ in 0..len {
            let byte = match shuffle(&mut seed) % 4 {
                0 => 0xc0 | (shuffle(&mut seed) % 64) as u8,
                1 => (shuffle(&mut seed) % 64) as u8,
                _ => shuffle(&mut seed) as u8,
            };
            chunks.push(byte);
        }
        let mut stream = b"qoif".to_vec();
        stream.extend_from_slice(&width.to_be_bytes());
        stream.extend_from_slice(&1u32.to_be_bytes());
        stream.extend_from_slice(&[4, 0]);
        stream.extend_from_slice(&chunks);
        stream.extend_from_slice(&[0, 0, 0, 0, 0, 0, 0, 1]);

        let expected = plain_decode(&chunks, width as usize, 4);
        let mut header = QOIHeader { width: 0, height: 0, channels: 0, colorspace: 0 };
        let size = stream.len();
        let got = qoi_decode(stream, size, &mut header, 0);
        assert_eq!(got, expected);
        if got.is_some() {
            complete += 1;
        } else {
            cut_off += 1;
        }
    }
    assert!(complete > 100);
    assert!(cut_off > 100);
}
