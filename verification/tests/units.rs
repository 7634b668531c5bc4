use fpic::buffer::Buffer;
use fpic::px::{Px, PxKind};
use fpic::rect::Rect;
use fpic::zimage::{is_like, Dot, Schema, ZImage};

#[test]
fn rect_containment_is_half_open() {
    let r = Rect { x: 2, y: 3, w: 4, h: 5 };
    assert!(r.is_in(2, 3));
    assert!(r.is_in(5, 7));
    assert!(!r.is_in(6, 3));
    assert!(!r.is_in(2, 8));
    assert!(!r.is_in(1, 3));
    assert!(!r.is_in(2, 2));
}

#[test]
fn rect_near_coordinate_limits() {
    let r = Rect { x: u32::MAX - 1, y: 0, w: 1, h: 1 };
    assert!(r.is_in(u32::MAX - 1, 0));
    assert!(!r.is_in(u32::MAX, 0));
}

#[test]
fn delta_numerator_is_signed_sum() {
    assert_eq!(Px::Gray(200).delta_num(&Px::Gray(50)), 150);
    assert_eq!(Px::Gray(50).delta_num(&Px::Gray(200)), -150);
    assert_eq!(Px::Rgb(10, 20, 30).delta_num(&Px::Rgb(5, 25, 30)), 0);
    assert_eq!(Px::Rgba(255, 255, 255, 255).delta_num(&Px::Rgba(0, 0, 0, 0)), 1020);
    assert_eq!(Px::GrayA(0, 0).delta_num(&Px::GrayA(255, 255)), -510);
}

fn gray_pair_buffer(small: u8, big: u8) -> Buffer {
    // The small candidate square sits at (0,0); the big region at (6,0).
    let mut b = Buffer::new(12, 6, PxKind::Gray);
    for x in 0..12u32 {
        for y in 0..6u32 {
            b.set(x, y, Px::Gray(if x < 6 { small } else { big }));
        }
    }
    b
}

#[test]
fn p6_is_like_accepts_exact_threshold() {
    // 227 - 100 = 127: the numerator of one half of the metric's scale.
    let b = gray_pair_buffer(227, 100);
    let rs = Rect { x: 0, y: 0, w: 3, h: 3 };
    let rb = Rect { x: 6, y: 0, w: 6, h: 6 };
    assert!(is_like(&b, &rs, &rb, 2, 127));
}

#[test]
fn p6_is_like_rejects_one_past_threshold() {
    let mut b = gray_pair_buffer(227, 100);
    // One sample of the big region one step further away fails the test.
    b.set(7, 1, Px::Gray(99));
    let rs = Rect { x: 0, y: 0, w: 3, h: 3 };
    let rb = Rect { x: 6, y: 0, w: 6, h: 6 };
    assert!(!is_like(&b, &rs, &rb, 2, 127));
}

#[test]
fn p6_is_like_is_one_sided() {
    // A big region brighter than the small one gives a negative numerator,
    // which the one-sided comparison always accepts.
    let b = gray_pair_buffer(0, 255);
    let rs = Rect { x: 0, y: 0, w: 3, h: 3 };
    let rb = Rect { x: 6, y: 0, w: 6, h: 6 };
    assert!(is_like(&b, &rs, &rb, 2, 127));
}

#[test]
fn zero_buffer_is_all_zero_samples() {
    let b = Buffer::new(3, 2, PxKind::Rgba);
    assert_eq!(b.data.len(), 6);
    for px in b.data.iter() {
        assert_eq!(*px, Px::Rgba(0, 0, 0, 0));
    }
}

fn two_schema_zimage() -> ZImage {
    ZImage {
        width: 12,
        height: 12,
        kind: PxKind::Gray,
        schemas: vec![
            Schema { small_x: 0, small_y: 0, small_wh: 3, big_wh: 6, bigs: vec![(6, 0)] },
            Schema { small_x: 3, small_y: 3, small_wh: 3, big_wh: 6, bigs: vec![(0, 6), (6, 6)] },
        ],
        pixels: vec![Dot { x: 0, y: 0, px: Px::Gray(11) }],
    }
}

#[test]
fn where_neq_reports_each_difference() {
    let a = two_schema_zimage();
    assert_eq!(a.where_neq(&two_schema_zimage()), None);

    let mut b = two_schema_zimage();
    b.width = 13;
    assert!(a.where_neq(&b).is_some());

    let mut b = two_schema_zimage();
    b.kind = PxKind::GrayA;
    assert!(a.where_neq(&b).is_some());

    let mut b = two_schema_zimage();
    b.schemas[1].bigs[1] = (6, 7);
    assert!(a.where_neq(&b).is_some());

    let mut b = two_schema_zimage();
    b.schemas.pop();
    assert!(a.where_neq(&b).is_some());

    let mut b = two_schema_zimage();
    b.pixels[0].px = Px::Gray(12);
    assert!(a.where_neq(&b).is_some());

    let mut b = two_schema_zimage();
    b.pixels[0].y = 1;
    assert!(a.where_neq(&b).is_some());
}

#[test]
fn check_rejects_bad_geometry() {
    let good = two_schema_zimage();
    assert!(good.check());

    let mut b = two_schema_zimage();
    b.schemas[0].small_wh = 0;
    assert!(!b.check());

    let mut b = two_schema_zimage();
    b.schemas[0].big_wh = 5;
    assert!(!b.check());

    let mut b = two_schema_zimage();
    b.schemas[0].bigs.clear();
    assert!(!b.check());

    let mut b = two_schema_zimage();
    b.schemas[0].bigs[0] = (7, 0);
    assert!(!b.check());

    let mut b = two_schema_zimage();
    b.pixels[0].x = 12;
    assert!(!b.check());

    let mut b = two_schema_zimage();
    b.pixels[0].px = Px::GrayA(1, 2);
    assert!(!b.check());
}

#[test]
fn unzip_applies_schemas_in_reverse() {
    // The dot seeds (0,0); the first schema copies the square at (0,0) to
    // the cell at (6,0); the second copies the square at (3,3) -- still
    // zero -- over the bottom cells. Applied in reverse, the second runs
    // first, so the seed must survive into the copy at (6,0).
    let z = two_schema_zimage();
    let out = z.unzip();
    assert_eq!(out.get(0, 0), Px::Gray(11));
    // source (0,0) maps to the 2x2 block at (6,0)
    assert_eq!(out.get(6, 0), Px::Gray(11));
    assert_eq!(out.get(7, 1), Px::Gray(11));
    // the rest of that block's row comes from zero sources
    assert_eq!(out.get(8, 0), Px::Gray(0));
    // the bottom cells were painted from sources that were zero at the time
    assert_eq!(out.get(0, 6), Px::Gray(0));
    assert_eq!(out.get(6, 6), Px::Gray(0));
}
