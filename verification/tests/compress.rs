use fpic::buffer::Buffer;
use fpic::px::{Px, PxKind};
use fpic::zimage::ZImage;

fn rgb_buffer(width: u32, height: u32, fill: Px) -> Buffer {
    let mut b = Buffer::new(width, height, PxKind::Rgb);
    for x in 0..width {
        for y in 0..height {
            b.set(x, y, fill);
        }
    }
    b
}

#[test]
fn s1_uniform_cell_stays_residual() {
    let buf = rgb_buffer(6, 6, Px::Rgb(100, 150, 200));
    let z = ZImage::zip(&buf);
    assert_eq!(z.schemas.len(), 0);
    assert_eq!(z.pixels.len(), 36);
    let out = z.unzip();
    assert_eq!(out.width, 6);
    assert_eq!(out.height, 6);
    assert_eq!(out.data, buf.data);
}

#[test]
fn s1_residual_dots_in_x_outer_order() {
    let buf = rgb_buffer(6, 6, Px::Rgb(1, 2, 3));
    let z = ZImage::zip(&buf);
    assert_eq!(z.pixels.len(), 36);
    for (t, d) in z.pixels.iter().enumerate() {
        assert_eq!(d.x as usize, t / 6);
        assert_eq!(d.y as usize, t % 6);
        assert_eq!(d.px, Px::Rgb(1, 2, 3));
    }
}

#[test]
fn s2_block_gradient_cell() {
    // A 6x6 buffer whose 2x2 blocks are constant. Every candidate small
    // region either exceeds the image or has its origin inside the single
    // big cell, so the cell cannot be zipped against itself: the result is
    // all residual dots and an exact reconstruction.
    let mut buf = Buffer::new(6, 6, PxKind::Rgb);
    for x in 0..6u32 {
        for y in 0..6u32 {
            let v = (10 * (x / 2) + (y / 2)) as u8;
            buf.set(x, y, Px::Rgb(v, v, v));
        }
    }
    let z = ZImage::zip(&buf);
    assert_eq!(z.schemas.len(), 0);
    assert_eq!(z.pixels.len(), 36);
    let out = z.unzip();
    assert_eq!(out.data, buf.data);
}

#[test]
fn s3_schema_propagates_across_cells() {
    // Cell (0,0) is uniform (200,200,200); inside cell (1,0) the square
    // x in [6,9), y in [3,6) carries the same value and the rest of that
    // cell is black. The scan zips cell (0,0) against the small region at
    // (6,3) and leaves cell (1,0) unzipped, so reconstruction must write
    // the residual dots first and then propagate them through the schema.
    let mut buf = Buffer::new(12, 6, PxKind::Rgb);
    for x in 0..12u32 {
        for y in 0..6u32 {
            let v = if x < 6 || (x < 9 && y >= 3) {
                Px::Rgb(200, 200, 200)
            } else {
                Px::Rgb(0, 0, 0)
            };
            buf.set(x, y, v);
        }
    }
    let z = ZImage::zip(&buf);
    assert_eq!(z.schemas.len(), 1);
    let s = &z.schemas[0];
    assert_eq!(s.small_x, 6);
    assert_eq!(s.small_y, 3);
    assert_eq!(s.small_wh, 3);
    assert_eq!(s.big_wh, 6);
    assert_eq!(s.bigs, vec![(0u32, 0u32)]);
    assert_eq!(z.pixels.len(), 36);
    for d in z.pixels.iter() {
        assert!(d.x >= 6 && d.x < 12 && d.y < 6);
    }
    let out = z.unzip();
    assert_eq!(out.data, buf.data);
}

#[test]
fn s5_empty_image() {
    let buf = Buffer::new(0, 0, PxKind::Rgb);
    let z = ZImage::zip(&buf);
    assert_eq!(z.width, 0);
    assert_eq!(z.height, 0);
    assert_eq!(z.schemas.len(), 0);
    assert_eq!(z.pixels.len(), 0);
    let out = z.unzip();
    assert_eq!(out.data.len(), 0);
}

#[test]
fn s6_non_multiple_dimensions() {
    // 7x7: only the one aligned cell is processed; the strip at x == 6 or
    // y == 6 is never referenced and reconstructs to channel zero.
    let mut buf = Buffer::new(7, 7, PxKind::Gray);
    for x in 0..7u32 {
        for y in 0..7u32 {
            buf.set(x, y, Px::Gray((1 + 7 * x + y) as u8));
        }
    }
    let z = ZImage::zip(&buf);
    assert_eq!(z.schemas.len(), 0);
    assert_eq!(z.pixels.len(), 36);
    for d in z.pixels.iter() {
        assert!(d.x < 6 && d.y < 6);
    }
    let out = z.unzip();
    assert_eq!(out.width, 7);
    assert_eq!(out.height, 7);
    for x in 0..7u32 {
        for y in 0..7u32 {
            let got = out.get(x, y);
            if x < 6 && y < 6 {
                assert_eq!(got, buf.get(x, y));
            } else {
                assert_eq!(got, Px::Gray(0));
            }
        }
    }
}

#[test]
fn p3_residual_count_is_36_per_unzipped_cell() {
    // 18x6 uniform: cell (0,0) is unzipped (no candidate), cells (1,0) and
    // (2,0) are zipped against small regions of the uniform area, or
    // unzipped; either way the count is a multiple of 36.
    let buf = rgb_buffer(18, 6, Px::Rgb(9, 9, 9));
    let z = ZImage::zip(&buf);
    assert_eq!(z.pixels.len() % 36, 0);
}

#[test]
fn p4_reconstruction_is_deterministic() {
    let mut buf = Buffer::new(12, 6, PxKind::GrayA);
    for x in 0..12u32 {
        for y in 0..6u32 {
            buf.set(x, y, Px::GrayA((x * 17 + y) as u8, 255));
        }
    }
    let z = ZImage::zip(&buf);
    let a = z.unzip();
    let b = z.unzip();
    assert_eq!(a.data, b.data);
    assert_eq!(a.width, b.width);
    assert_eq!(a.height, b.height);
}

#[test]
fn p2_schemas_are_well_formed() {
    // The same layout as the propagation test, twice as tall, to give the
    // scan several cells to zip.
    let mut buf = Buffer::new(12, 12, PxKind::Rgb);
    for x in 0..12u32 {
        for y in 0..12u32 {
            let v = if x < 6 || (x < 9 && y % 6 >= 3) {
                Px::Rgb(200, 200, 200)
            } else {
                Px::Rgb(0, 0, 0)
            };
            buf.set(x, y, v);
        }
    }
    let z = ZImage::zip(&buf);
    assert!(z.check());
    for s in z.schemas.iter() {
        assert_eq!(s.small_wh, 3);
        assert_eq!(s.big_wh, 6);
        assert_eq!(s.small_x % 3, 0);
        assert_eq!(s.small_y % 3, 0);
        assert!(!s.bigs.is_empty());
        assert!(s.small_x + 3 <= 12 && s.small_y + 3 <= 12);
        for (bx, by) in s.bigs.iter() {
            assert!(bx + 6 <= 12 && by + 6 <= 12);
        }
    }
}
