use eui_client::icon::{centred, fitted, ico, ico_container, icns, icns_container, square, Image};

fn be32(b: &[u8]) -> u32 {
    u32::from_be_bytes([b[0], b[1], b[2], b[3]])
}

fn le32(b: &[u8]) -> u32 {
    u32::from_le_bytes([b[0], b[1], b[2], b[3]])
}

#[test]
fn an_icns_declares_what_it_holds() {
    let pictures = vec![vec![1u8; 10], vec![2u8; 20], vec![3u8; 30]];
    let out = icns_container(&pictures).unwrap();
    assert_eq!(&out[..4], b"icns");
    assert_eq!(be32(&out[4..8]) as usize, out.len(), "the header's length is the file's");
    let mut at = 8;
    for (kind, one) in [(b"ic07", &pictures[0]), (b"ic08", &pictures[1]), (b"ic09", &pictures[2])] {
        assert_eq!(&out[at..at + 4], kind);
        let len = be32(&out[at + 4..at + 8]) as usize;
        assert_eq!(len, one.len() + 8);
        assert_eq!(&out[at + 8..at + len], one.as_slice());
        at += len;
    }
    assert_eq!(at, out.len());
}

#[test]
fn an_ico_declares_what_it_holds() {
    let pictures = vec![vec![16u8; 5], vec![32u8; 6], vec![48u8; 7], vec![0u8; 8]];
    let out = ico_container(&pictures).unwrap();
    assert_eq!(&out[..6], &[0, 0, 1, 0, 4, 0]);
    let mut expect_at = 6 + 16 * 4;
    for (i, (edge, one)) in [16u32, 32, 48, 256].iter().zip(&pictures).enumerate() {
        let e = &out[6 + 16 * i..6 + 16 * (i + 1)];
        let side = if *edge == 256 { 0 } else { *edge as u8 };
        assert_eq!((e[0], e[1]), (side, side), "square");
        assert_eq!(&e[4..8], &[1, 0, 32, 0], "one plane, 32 bits per pixel");
        assert_eq!(le32(&e[8..12]) as usize, one.len());
        assert_eq!(le32(&e[12..16]) as usize, expect_at, "entry {i} points at its picture");
        assert_eq!(&out[expect_at..expect_at + one.len()], one.as_slice());
        expect_at += one.len();
    }
    assert_eq!(expect_at, out.len());
}

#[test]
fn a_small_picture_sits_in_the_middle_of_its_square() {
    // Two by one, red then green, in a four by four square.
    let img = Image { width: 2, height: 1, rgba: vec![255, 0, 0, 255, 0, 255, 0, 255] };
    let sq = centred(&img, 4);
    assert_eq!((sq.width, sq.height), (4, 4));
    assert_eq!(sq.rgba.len(), 64);
    let px = |x: usize, y: usize| &sq.rgba[(y * 4 + x) * 4..(y * 4 + x) * 4 + 4];
    // x0 = 1, y0 = 1.
    assert_eq!(px(1, 1), &[255, 0, 0, 255]);
    assert_eq!(px(2, 1), &[0, 255, 0, 255]);
    for y in 0..4 {
        for x in 0..4 {
            if !(y == 1 && (x == 1 || x == 2)) {
                assert_eq!(px(x, y), &[0, 0, 0, 0], "fitted, not stretched");
            }
        }
    }
}

#[test]
fn a_picture_of_the_square_size_is_copied_whole() {
    let rgba: Vec<u8> = (0..16u8).collect();
    let img = Image { width: 2, height: 2, rgba: rgba.clone() };
    assert_eq!(centred(&img, 2).rgba, rgba);
}

#[test]
fn a_picture_is_fitted_not_stretched() {
    assert_eq!(fitted(256, 128, 64).unwrap(), (64, 32));
    assert_eq!(fitted(100, 300, 30).unwrap(), (10, 30));
    assert_eq!(fitted(1000, 1, 64).unwrap(), (64, 1));
    assert_eq!(fitted(255, 256, 64).unwrap(), (63, 64));
    assert_eq!(fitted(0, 0, 64).unwrap_err(), "the icon has no pixels");
}

/// The one-pixel picture the original tests draw with, as it is once
/// resized to fill a square of side `edge`.
fn dot_at(edge: u32) -> Image {
    Image { width: edge, height: edge, rgba: [9u8, 9, 9, 255].repeat((edge * edge) as usize) }
}

/// The size a PNG declares, and its pixels, as `png` reads them back.
fn decode(bytes: &[u8]) -> (u32, u32, Vec<u8>) {
    let mut reader = png::Decoder::new(std::io::Cursor::new(bytes)).read_info().unwrap();
    let mut buf = vec![0; reader.output_buffer_size().unwrap()];
    let info = reader.next_frame(&mut buf).unwrap();
    buf.truncate(info.buffer_size());
    (info.width, info.height, buf)
}

#[test]
fn an_icon_is_written_at_the_size_the_format_declares() {
    let png = square(&dot_at(256), 256).unwrap();
    let (w, h, _) = decode(&png);
    assert_eq!((w, h), (256, 256));
    // A picture that is not square is fitted inside one, not stretched:
    // four by two, drawn at its fitted size for 64, is 64 by 32.
    assert_eq!(fitted(4, 2, 64).unwrap(), (64, 32));
    let wide = Image { width: 64, height: 32, rgba: vec![255; 64 * 32 * 4] };
    let (w, h, rgba) = decode(&square(&wide, 64).unwrap());
    assert_eq!((w, h), (64, 64));
    // The top row is outside the picture and stayed transparent.
    assert_eq!(rgba[3], 0, "fitted, not stretched");
}

#[test]
fn a_picture_already_at_the_size_is_written_as_it_is() {
    let rgba: Vec<u8> = (0..16u8).collect();
    let img = Image { width: 2, height: 2, rgba: rgba.clone() };
    let out = square(&img, 2).unwrap();
    assert_eq!(&out[..8], &[137, 80, 78, 71, 13, 10, 26, 10], "a PNG, not the pixels handed in");
    assert_eq!(decode(&out), (2, 2, rgba));
}

#[test]
fn a_square_with_no_side_or_missing_pixels_is_refused() {
    let one = Image { width: 1, height: 1, rgba: vec![9, 9, 9, 255] };
    assert!(square(&one, 0).unwrap_err().starts_with("cannot write the icon: "));
    let short = Image { width: 2, height: 2, rgba: vec![0; 15] };
    assert!(square(&short, 2).unwrap_err().starts_with("cannot write the icon: "));
}

/// `.icns` and `.ico` are byte formats nobody on this build machine can
/// open, so what is checked is that each says what it contains: the magic,
/// the lengths that have to add up, and a picture at every declared size
/// that really is a PNG of that size.
#[test]
fn the_two_icon_containers_declare_what_they_hold() {
    let icns = icns(&vec![dot_at(128), dot_at(256), dot_at(512)]).unwrap();
    assert_eq!(icns.get(..4), Some(b"icns".as_slice()));
    let total = u32::from_be_bytes([icns[4], icns[5], icns[6], icns[7]]) as usize;
    assert_eq!(total, icns.len(), "the header's length is the file's");
    let mut at = 8;
    let mut seen = Vec::new();
    while at < icns.len() {
        let kind = icns[at..at + 4].to_vec();
        let len = u32::from_be_bytes([icns[at + 4], icns[at + 5], icns[at + 6], icns[at + 7]]) as usize;
        assert!(len >= 8 && at + len <= icns.len(), "chunk {kind:?} runs past the end");
        let (w, h, _) = decode(&icns[at + 8..at + len]);
        assert_eq!(w, h, "an icon entry is square");
        seen.push((kind, w));
        at += len;
    }
    assert_eq!(seen.iter().map(|(_, w)| *w).collect::<Vec<_>>(), vec![128, 256, 512]);
    assert_eq!(seen.first().map(|(k, _)| k.as_slice()), Some(b"ic07".as_slice()), "128 is ic07");

    let ico = ico(&vec![dot_at(16), dot_at(32), dot_at(48), dot_at(256)]).unwrap();
    assert_eq!(u16::from_le_bytes([ico[0], ico[1]]), 0);
    assert_eq!(u16::from_le_bytes([ico[2], ico[3]]), 1, "an icon, not a cursor");
    let count = u16::from_le_bytes([ico[4], ico[5]]) as usize;
    assert_eq!(count, 4);
    for i in 0..count {
        let e = 6 + i * 16;
        let declared = ico[e];
        let len = u32::from_le_bytes([ico[e + 8], ico[e + 9], ico[e + 10], ico[e + 11]]) as usize;
        let off = u32::from_le_bytes([ico[e + 12], ico[e + 13], ico[e + 14], ico[e + 15]]) as usize;
        assert_eq!(ico[e], ico[e + 1], "square");
        assert_eq!(u16::from_le_bytes([ico[e + 6], ico[e + 7]]), 32, "32 bits per pixel");
        assert!(off + len <= ico.len(), "entry {i} points past the end");
        let (w, _, _) = decode(&ico[off..off + len]);
        // 256 is written as zero: the field is one byte and 256 does not
        // fit in it, which is the format's own convention.
        let expected = if declared == 0 { 256 } else { u32::from(declared) };
        assert_eq!(w, expected, "entry {i} says {declared} and holds {w}");
    }
}
