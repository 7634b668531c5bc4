use fpic::buffer::Buffer;
use fpic::container::LoadError;
use fpic::px::{Px, PxKind};
use fpic::zimage::{Dot, Schema, ZImage};

fn sample_zimage() -> ZImage {
    ZImage {
        width: 6,
        height: 6,
        kind: PxKind::Rgb,
        schemas: vec![Schema {
            small_x: 3,
            small_y: 0,
            small_wh: 3,
            big_wh: 6,
            bigs: vec![(0, 0)],
        }],
        pixels: vec![Dot { x: 1, y: 2, px: Px::Rgb(9, 8, 7) }],
    }
}

#[test]
fn save_produces_exact_layout() {
    let z = sample_zimage();
    let bytes = z.save();
    let expected: Vec<u8> = vec![
        6, 0, 0, 0, // width
        6, 0, 0, 0, // height
        1, 0, 0, 0, // schema count
        1, 0, 0, 0, // pixel count
        3, 0, 0, 0, // small_x
        0, 0, 0, 0, // small_y
        3, 0, 0, 0, // small_wh
        6, 0, 0, 0, // big_wh
        1, 0, 0, 0, // bigs length
        0, 0, 0, 0, // big x
        0, 0, 0, 0, // big y
        1, 0, 0, 0, // dot x
        2, 0, 0, 0, // dot y
        9, 8, 7, // sample channels
    ];
    assert_eq!(bytes, expected);
}

#[test]
fn p1_load_of_save_restores_all_fields() {
    let z = sample_zimage();
    let bytes = z.save();
    let back = ZImage::load(&bytes, PxKind::Rgb).unwrap();
    assert_eq!(z.where_neq(&back), None);
}

#[test]
fn s4_gray_image_round_trips() {
    let mut buf = Buffer::new(6, 6, PxKind::Gray);
    for x in 0..6u32 {
        for y in 0..6u32 {
            buf.set(x, y, Px::Gray((40 + x * 6 + y) as u8));
        }
    }
    let z = ZImage::zip(&buf);
    let bytes = z.save();
    let back = ZImage::load(&bytes, PxKind::Gray).unwrap();
    assert_eq!(z.where_neq(&back), None);
}

#[test]
fn s5_empty_image_round_trips() {
    let buf = Buffer::new(0, 0, PxKind::Rgba);
    let z = ZImage::zip(&buf);
    let bytes = z.save();
    assert_eq!(bytes, vec![0u8; 16]);
    let back = ZImage::load(&bytes, PxKind::Rgba).unwrap();
    assert_eq!(z.where_neq(&back), None);
}

#[test]
fn round_trip_every_sample_layout() {
    let samples = vec![
        (PxKind::Gray, Px::Gray(5)),
        (PxKind::GrayA, Px::GrayA(5, 6)),
        (PxKind::Rgb, Px::Rgb(5, 6, 7)),
        (PxKind::Rgba, Px::Rgba(5, 6, 7, 8)),
    ];
    for (kind, px) in samples {
        let z = ZImage {
            width: 9,
            height: 9,
            kind,
            schemas: vec![],
            pixels: vec![Dot { x: 8, y: 8, px }],
        };
        let bytes = z.save();
        let back = ZImage::load(&bytes, kind).unwrap();
        assert_eq!(z.where_neq(&back), None);
    }
}

#[test]
fn load_of_truncated_stream_is_short_read() {
    let z = sample_zimage();
    let bytes = z.save();
    for cut in 0..bytes.len() {
        let shorter: Vec<u8> = bytes[..cut].to_vec();
        let r = ZImage::load(&shorter, PxKind::Rgb);
        assert!(matches!(r, Err(LoadError::ShortRead)));
    }
}

#[test]
fn load_ignores_trailing_bytes() {
    let z = sample_zimage();
    let mut bytes = z.save();
    bytes.push(0xAB);
    let back = ZImage::load(&bytes, PxKind::Rgb).unwrap();
    assert_eq!(z.where_neq(&back), None);
}

#[test]
fn load_does_not_validate_geometry() {
    // A schema far outside the image parses fine; only `check` rejects it.
    let z = ZImage {
        width: 2,
        height: 2,
        kind: PxKind::Gray,
        schemas: vec![Schema {
            small_x: 90,
            small_y: 0,
            small_wh: 3,
            big_wh: 6,
            bigs: vec![(70, 0)],
        }],
        pixels: vec![],
    };
    let bytes = z.save();
    let back = ZImage::load(&bytes, PxKind::Gray).unwrap();
    assert_eq!(z.where_neq(&back), None);
    assert!(!back.check());
}

#[test]
fn reconstruction_after_round_trip_matches() {
    let mut buf = Buffer::new(12, 6, PxKind::Rgb);
    for x in 0..12u32 {
        for y in 0..6u32 {
            let v = if x < 6 || (x < 9 && y >= 3) {
                Px::Rgb(200, 200, 200)
            } else {
                Px::Rgb(0, 0, 0)
            };
            buf.set(x, y, v);
        }
    }
    let z = ZImage::zip(&buf);
    let bytes = z.save();
    let back = ZImage::load(&bytes, PxKind::Rgb).unwrap();
    assert!(back.check());
    let direct = z.unzip();
    let via_container = back.unzip();
    assert_eq!(direct.data, via_container.data);
    assert_eq!(direct.data, buf.data);
}

#[test]
fn check_accepts_compressor_output() {
    let mut buf = Buffer::new(12, 6, PxKind::Rgb);
    for x in 0..12u32 {
        for y in 0..6u32 {
            buf.set(x, y, Px::Rgb(x as u8, y as u8, 3));
        }
    }
    let z = ZImage::zip(&buf);
    assert!(z.check());
}
