//! The on-disk container: a fixed little-endian byte layout that stores a
//! compressed image verbatim and parses back to exactly the value written.

use vstd::prelude::*;

use crate::px::{Px, PxKind};
use crate::zimage::{
    cell_views, dot_views, sch_views, schema_ranges, u32_ok, DotV, Dot, Schema, SchemaV, ZImage,
    ZImageV,
};

verus! {

/// The little-endian bytes of a 32-bit value.
pub open spec fn le32(v: int) -> Seq<u8> {
    seq![
        (v % 256) as u8,
        ((v / 256) % 256) as u8,
        ((v / 65536) % 256) as u8,
        ((v / 16777216) % 256) as u8,
    ]
}

/// Appends a 32-bit value to the stream in little-endian order.
pub fn push_u32(out: &mut Vec<u8>, v: u32)
    ensures
        final(out)@ == old(out)@ + le32(v as int),
{
    out.push((v % 256) as u8);
    out.push((v / 256 % 256) as u8);
    out.push((v / 65536 % 256) as u8);
    out.push((v / 16777216 % 256) as u8);
    assert(out@ =~= old(out)@ + le32(v as int));
}

/// The 32-bit value starting at `pos`, little-endian, together with the
/// position just past it; nothing if fewer than four bytes remain.
pub open spec fn p_u32(b: Seq<u8>, pos: int) -> Option<(int, int)> {
    if 0 <= pos && pos + 4 <= b.len() {
        Some((b[pos] + b[pos + 1] * 256 + b[pos + 2] * 65536 + b[pos + 3] * 16777216, pos + 4))
    } else {
        None
    }
}

/// Reads a 32-bit little-endian value at `pos`, or nothing on a short read.
pub fn read_u32(b: &Vec<u8>, pos: usize) -> (r: Option<(u32, usize)>)
    ensures
        match r {
            Some((v, p)) => p_u32(b@, pos as int) == Some((v as int, p as int)),
            None => p_u32(b@, pos as int) is None,
        },
{
    if pos <= b.len() && b.len() - pos >= 4 {
        let v: u32 = (b[pos] as u32) + (b[pos + 1] as u32) * 256 + (b[pos + 2] as u32) * 65536 + (
        b[pos + 3] as u32) * 16777216;
        Some((v, pos + 4))
    } else {
        None
    }
}

/// Parsing inverts serialization for one 32-bit value.
proof fn lemma_p_u32_of_le32(b: Seq<u8>, pos: int, v: int)
    requires
        0 <= v < 0x1_0000_0000,
        0 <= pos,
        pos + 4 <= b.len(),
        b.subrange(pos, pos + 4) == le32(v),
    ensures
        p_u32(b, pos) == Some((v, pos + 4)),
{
    assert(b[pos] == le32(v)[0]);
    assert(b[pos + 1] == le32(v)[1]);
    assert(b[pos + 2] == le32(v)[2]);
    assert(b[pos + 3] == le32(v)[3]);
    assert((v % 256) + ((v / 256) % 256) * 256 + ((v / 65536) % 256) * 65536 + ((v / 16777216)
        % 256) * 16777216 == v) by (nonlinear_arith)
        requires
            0 <= v < 0x1_0000_0000,
    ;
}

/// The bytes of the big-region list from entry `j` on: two 32-bit
/// coordinates per entry.
pub open spec fn bigs_bytes_from(bigs: Seq<(int, int)>, j: int) -> Seq<u8>
    decreases bigs.len() - j,
{
    if j < 0 || j >= bigs.len() {
        Seq::empty()
    } else {
        le32(bigs[j].0) + le32(bigs[j].1) + bigs_bytes_from(bigs, j + 1)
    }
}

/// The bytes of one schema: four fields, the big-region count, then the
/// big-region coordinates.
pub open spec fn schema_bytes(s: SchemaV) -> Seq<u8> {
    le32(s.small_x) + le32(s.small_y) + le32(s.small_wh) + le32(s.big_wh) + le32(
        s.bigs.len() as int,
    ) + bigs_bytes_from(s.bigs, 0)
}

pub open spec fn schemas_bytes_from(ss: Seq<SchemaV>, i: int) -> Seq<u8>
    decreases ss.len() - i,
{
    if i < 0 || i >= ss.len() {
        Seq::empty()
    } else {
        schema_bytes(ss[i]) + schemas_bytes_from(ss, i + 1)
    }
}

/// The bytes of one residual dot: two 32-bit coordinates, then the sample's
/// channels.
pub open spec fn dot_bytes(d: DotV) -> Seq<u8> {
    le32(d.x) + le32(d.y) + d.px.bytes()
}

pub open spec fn dots_bytes_from(ds: Seq<DotV>, i: int) -> Seq<u8>
    decreases ds.len() - i,
{
    if i < 0 || i >= ds.len() {
        Seq::empty()
    } else {
        dot_bytes(ds[i]) + dots_bytes_from(ds, i + 1)
    }
}

/// The container layout: dimensions, the two list lengths, the schemas,
/// then the residual dots, all counters and coordinates little-endian.
pub open spec fn zimage_bytes(z: ZImageV) -> Seq<u8> {
    le32(z.width) + le32(z.height) + le32(z.schemas.len() as int) + le32(z.pixels.len() as int)
        + schemas_bytes_from(z.schemas, 0) + dots_bytes_from(z.pixels, 0)
}

impl ZImage {
    /// Serializes the compressed image into the container layout.
    pub fn save(&self) -> (r: Vec<u8>)
        requires
            self@.counts_ok(),
        ensures
            r@ == zimage_bytes(self@),
    {
        let ghost z = self@;
        let mut out: Vec<u8> = Vec::new();
        push_u32(&mut out, self.width);
        push_u32(&mut out, self.height);
        push_u32(&mut out, self.schemas.len() as u32);
        push_u32(&mut out, self.pixels.len() as u32);
        let ghost head = out@;
        proof {
            assert(head =~= le32(z.width) + le32(z.height) + le32(z.schemas.len() as int) + le32(
                z.pixels.len() as int,
            ));
        }
        let n = self.schemas.len();
        let mut i: usize = 0;
        while i < n
            invariant
                z == self@,
                z.counts_ok(),
                n == self.schemas@.len(),
                i <= n,
                out@ + schemas_bytes_from(z.schemas, i as int) == head + schemas_bytes_from(
                    z.schemas,
                    0,
                ),
            decreases n - i,
        {
            let s = &self.schemas[i];
            proof {
                assert(s@ == z.schemas[i as int]);
            }
            let ghost pre = out@;
            push_u32(&mut out, s.small_x);
            push_u32(&mut out, s.small_y);
            push_u32(&mut out, s.small_wh);
            push_u32(&mut out, s.big_wh);
            push_u32(&mut out, s.bigs.len() as u32);
            let ghost mid = out@;
            let m = s.bigs.len();
            let mut j: usize = 0;
            while j < m
                invariant
                    m == s.bigs@.len(),
                    j <= m,
                    s@ == z.schemas[i as int],
                    out@ + bigs_bytes_from(s@.bigs, j as int) == mid + bigs_bytes_from(
                        s@.bigs,
                        0,
                    ),
                decreases m - j,
            {
                let (bx, by) = s.bigs[j];
                push_u32(&mut out, bx);
                push_u32(&mut out, by);
                proof {
                    assert(s@.bigs[j as int] == (bx as int, by as int));
                    assert(out@ + bigs_bytes_from(s@.bigs, j as int + 1) =~= mid
                        + bigs_bytes_from(s@.bigs, 0));
                }
                j = j + 1;
            }
            proof {
                assert(out@ =~= mid + bigs_bytes_from(s@.bigs, 0));
                assert(mid =~= pre + le32(s@.small_x) + le32(s@.small_y) + le32(s@.small_wh)
                    + le32(s@.big_wh) + le32(s@.bigs.len() as int));
                assert(out@ =~= pre + schema_bytes(z.schemas[i as int]));
                assert(out@ + schemas_bytes_from(z.schemas, i as int + 1) =~= head
                    + schemas_bytes_from(z.schemas, 0));
            }
            i = i + 1;
        }
        let ghost mid2 = out@;
        proof {
            assert(mid2 =~= head + schemas_bytes_from(z.schemas, 0));
        }
        let np = self.pixels.len();
        let mut i: usize = 0;
        while i < np
            invariant
                z == self@,
                np == self.pixels@.len(),
                i <= np,
                out@ + dots_bytes_from(z.pixels, i as int) == mid2 + dots_bytes_from(
                    z.pixels,
                    0,
                ),
            decreases np - i,
        {
            let dt = &self.pixels[i];
            proof {
                assert(dt@ == z.pixels[i as int]);
            }
            let ghost pre = out@;
            push_u32(&mut out, dt.x);
            push_u32(&mut out, dt.y);
            dt.px.push_bytes(&mut out);
            proof {
                assert(out@ =~= pre + dot_bytes(z.pixels[i as int]));
                assert(out@ + dots_bytes_from(z.pixels, i as int + 1) =~= mid2
                    + dots_bytes_from(z.pixels, 0));
            }
            i = i + 1;
        }
        proof {
            assert(out@ =~= mid2 + dots_bytes_from(z.pixels, 0));
            assert(out@ =~= zimage_bytes(z));
        }
        out
    }
}

/// The sample starting at `pos`, read as `kind` lays it out, with the
/// position just past it; nothing on a short read.
pub open spec fn p_px(b: Seq<u8>, pos: int, kind: PxKind) -> Option<(Px, int)> {
    if 0 <= pos && pos + kind.channels() <= b.len() {
        Some(
            (
                match kind {
                    PxKind::Gray => Px::Gray(b[pos]),
                    PxKind::GrayA => Px::GrayA(b[pos], b[pos + 1]),
                    PxKind::Rgb => Px::Rgb(b[pos], b[pos + 1], b[pos + 2]),
                    PxKind::Rgba => Px::Rgba(b[pos], b[pos + 1], b[pos + 2], b[pos + 3]),
                },
                pos + kind.channels(),
            ),
        )
    } else {
        None
    }
}

/// `n` big-region coordinate pairs starting at `pos`.
pub open spec fn p_bigs(b: Seq<u8>, pos: int, n: int) -> Option<(Seq<(int, int)>, int)>
    decreases n,
{
    if n <= 0 {
        Some((Seq::empty(), pos))
    } else {
        match p_u32(b, pos) {
            None => None,
            Some((x, p1)) => match p_u32(b, p1) {
                None => None,
                Some((y, p2)) => match p_bigs(b, p2, n - 1) {
                    None => None,
                    Some((rest, p3)) => Some((seq![(x, y)] + rest, p3)),
                },
            },
        }
    }
}

/// One schema starting at `pos`.
pub open spec fn p_schema(b: Seq<u8>, pos: int) -> Option<(SchemaV, int)> {
    match p_u32(b, pos) {
        None => None,
        Some((sx, p1)) => match p_u32(b, p1) {
            None => None,
            Some((sy, p2)) => match p_u32(b, p2) {
                None => None,
                Some((sw, p3)) => match p_u32(b, p3) {
                    None => None,
                    Some((bw, p4)) => match p_u32(b, p4) {
                        None => None,
                        Some((bl, p5)) => match p_bigs(b, p5, bl) {
                            None => None,
                            Some((bigs, p6)) => Some(
                                (
                                    SchemaV {
                                        small_x: sx,
                                        small_y: sy,
                                        small_wh: sw,
                                        big_wh: bw,
                                        bigs,
                                    },
                                    p6,
                                ),
                            ),
                        },
                    },
                },
            },
        },
    }
}

/// `n` schemas starting at `pos`.
pub open spec fn p_schemas(b: Seq<u8>, pos: int, n: int) -> Option<(Seq<SchemaV>, int)>
    decreases n,
{
    if n <= 0 {
        Some((Seq::empty(), pos))
    } else {
        match p_schema(b, pos) {
            None => None,
            Some((s, p1)) => match p_schemas(b, p1, n - 1) {
                None => None,
                Some((rest, p2)) => Some((seq![s] + rest, p2)),
            },
        }
    }
}

/// One residual dot starting at `pos`.
pub open spec fn p_dot(b: Seq<u8>, pos: int, kind: PxKind) -> Option<(DotV, int)> {
    match p_u32(b, pos) {
        None => None,
        Some((x, p1)) => match p_u32(b, p1) {
            None => None,
            Some((y, p2)) => match p_px(b, p2, kind) {
                None => None,
                Some((px, p3)) => Some((DotV { x, y, px }, p3)),
            },
        },
    }
}

/// `n` residual dots starting at `pos`.
pub open spec fn p_dots(b: Seq<u8>, pos: int, n: int, kind: PxKind) -> Option<(Seq<DotV>, int)>
    decreases n,
{
    if n <= 0 {
        Some((Seq::empty(), pos))
    } else {
        match p_dot(b, pos, kind) {
            None => None,
            Some((d, p1)) => match p_dots(b, p1, n - 1, kind) {
                None => None,
                Some((rest, p2)) => Some((seq![d] + rest, p2)),
            },
        }
    }
}

/// The whole container, read with samples of layout `kind`; bytes past the
/// announced content are ignored. Nothing on a short read.
pub open spec fn p_zimage(b: Seq<u8>, kind: PxKind) -> Option<ZImageV> {
    match p_u32(b, 0) {
        None => None,
        Some((w, p1)) => match p_u32(b, p1) {
            None => None,
            Some((h, p2)) => match p_u32(b, p2) {
                None => None,
                Some((ns, p3)) => match p_u32(b, p3) {
                    None => None,
                    Some((np, p4)) => match p_schemas(b, p4, ns) {
                        None => None,
                        Some((ss, p5)) => match p_dots(b, p5, np, kind) {
                            None => None,
                            Some((ds, _)) => Some(
                                ZImageV { width: w, height: h, kind, schemas: ss, pixels: ds },
                            ),
                        },
                    },
                },
            },
        },
    }
}

/// Reads one sample of layout `kind` at `pos`, or nothing on a short read.
fn read_px(b: &Vec<u8>, pos: usize, kind: PxKind) -> (r: Option<(Px, usize)>)
    ensures
        match r {
            Some((v, p)) => p_px(b@, pos as int, kind) == Some((v, p as int)) && v.kind()
                == kind,
            None => p_px(b@, pos as int, kind) is None,
        },
{
    match kind {
        PxKind::Gray => {
            if pos < b.len() {
                Some((Px::Gray(b[pos]), pos + 1))
            } else {
                None
            }
        },
        PxKind::GrayA => {
            if pos <= b.len() && b.len() - pos >= 2 {
                Some((Px::GrayA(b[pos], b[pos + 1]), pos + 2))
            } else {
                None
            }
        },
        PxKind::Rgb => {
            if pos <= b.len() && b.len() - pos >= 3 {
                Some((Px::Rgb(b[pos], b[pos + 1], b[pos + 2]), pos + 3))
            } else {
                None
            }
        },
        PxKind::Rgba => {
            if pos <= b.len() && b.len() - pos >= 4 {
                Some((Px::Rgba(b[pos], b[pos + 1], b[pos + 2], b[pos + 3]), pos + 4))
            } else {
                None
            }
        },
    }
}

/// Reads one schema at `pos`, or nothing on a short read.
fn read_schema(b: &Vec<u8>, pos: usize) -> (r: Option<(Schema, usize)>)
    ensures
        match r {
            Some((s, p)) => {
                &&& p_schema(b@, pos as int) == Some((s@, p as int))
                &&& u32_ok(s@.bigs.len() as int)
            },
            None => p_schema(b@, pos as int) is None,
        },
{
    let (sx, p1) = match read_u32(b, pos) {
        Some(v) => v,
        None => {
            return None;
        },
    };
    let (sy, p2) = match read_u32(b, p1) {
        Some(v) => v,
        None => {
            return None;
        },
    };
    let (sw, p3) = match read_u32(b, p2) {
        Some(v) => v,
        None => {
            return None;
        },
    };
    let (bw, p4) = match read_u32(b, p3) {
        Some(v) => v,
        None => {
            return None;
        },
    };
    let (bl, p5) = match read_u32(b, p4) {
        Some(v) => v,
        None => {
            return None;
        },
    };
    let mut bigs: Vec<(u32, u32)> = Vec::new();
    let mut cur = p5;
    let mut j: u32 = 0;
    assert(cell_views(bigs@) =~= Seq::<(int, int)>::empty());
    while j < bl
        invariant
            j <= bl,
            bigs@.len() == j,
            p_u32(b@, pos as int) == Some((sx as int, p1 as int)),
            p_u32(b@, p1 as int) == Some((sy as int, p2 as int)),
            p_u32(b@, p2 as int) == Some((sw as int, p3 as int)),
            p_u32(b@, p3 as int) == Some((bw as int, p4 as int)),
            p_u32(b@, p4 as int) == Some((bl as int, p5 as int)),
            match p_bigs(b@, cur as int, bl as int - j as int) {
                Some((rest, pe)) => p_bigs(b@, p5 as int, bl as int) == Some(
                    (cell_views(bigs@) + rest, pe),
                ),
                None => p_bigs(b@, p5 as int, bl as int) is None,
            },
        decreases bl - j,
    {
        let (x, q1) = match read_u32(b, cur) {
            Some(v) => v,
            None => {
                proof {
                    assert(p_bigs(b@, cur as int, bl as int - j as int) is None);
                    assert(p_bigs(b@, p5 as int, bl as int) is None);
                    assert(p_schema(b@, pos as int) is None);
                }
                return None;
            },
        };
        let (y, q2) = match read_u32(b, q1) {
            Some(v) => v,
            None => {
                proof {
                    assert(p_bigs(b@, cur as int, bl as int - j as int) is None);
                    assert(p_bigs(b@, p5 as int, bl as int) is None);
                    assert(p_schema(b@, pos as int) is None);
                }
                return None;
            },
        };
        let ghost bv = bigs@;
        bigs.push((x, y));
        cur = q2;
        proof {
            assert(cell_views(bigs@) =~= cell_views(bv).push((x as int, y as int)));
            match p_bigs(b@, q2 as int, bl as int - j as int - 1) {
                Some((rest2, pe2)) => {
                    assert(cell_views(bigs@) + rest2 =~= cell_views(bv) + (seq![
                        (x as int, y as int),
                    ] + rest2));
                },
                None => {},
            }
        }
        j = j + 1;
    }
    proof {
        assert(p_bigs(b@, cur as int, 0) == Some((Seq::<(int, int)>::empty(), cur as int)));
        assert(cell_views(bigs@) + Seq::<(int, int)>::empty() =~= cell_views(bigs@));
        assert(p_bigs(b@, p5 as int, bl as int) == Some((cell_views(bigs@), cur as int)));
    }
    let s = Schema { small_x: sx, small_y: sy, small_wh: sw, big_wh: bw, bigs };
    proof {
        assert(s@ =~~= SchemaV {
            small_x: sx as int,
            small_y: sy as int,
            small_wh: sw as int,
            big_wh: bw as int,
            bigs: cell_views(s.bigs@),
        });
        assert(p_schema(b@, pos as int) == Some((s@, cur as int)));
    }
    Some((s, cur))
}

/// The one way reading the container can fail: the stream ended before the
/// content it announces.
#[derive(Clone, Copy, PartialEq, Eq, Structural, Debug)]
pub enum LoadError {
    ShortRead,
}

impl ZImage {
    /// Restores a compressed image from container bytes, reading samples of
    /// layout `kind` (the container does not record the layout; the caller
    /// must know it). Fails exactly when the stream is shorter than the
    /// content it announces; nothing else is validated.
    pub fn load(bytes: &Vec<u8>, kind: PxKind) -> (r: Result<ZImage, LoadError>)
        ensures
            match r {
                Ok(z) => {
                    &&& p_zimage(bytes@, kind) == Some(z@)
                    &&& z@.ranges_ok()
                    &&& z@.counts_ok()
                    &&& z.kind == kind
                },
                Err(_) => p_zimage(bytes@, kind) is None,
            },
    {
        let (w, p1) = match read_u32(bytes, 0) {
            Some(v) => v,
            None => {
                return Err(LoadError::ShortRead);
            },
        };
        let (h, p2) = match read_u32(bytes, p1) {
            Some(v) => v,
            None => {
                return Err(LoadError::ShortRead);
            },
        };
        let (ns, p3) = match read_u32(bytes, p2) {
            Some(v) => v,
            None => {
                return Err(LoadError::ShortRead);
            },
        };
        let (np, p4) = match read_u32(bytes, p3) {
            Some(v) => v,
            None => {
                return Err(LoadError::ShortRead);
            },
        };
        let mut schemas: Vec<Schema> = Vec::new();
        let mut pos = p4;
        let mut i: u32 = 0;
        assert(sch_views(schemas@) =~= Seq::<SchemaV>::empty());
        while i < ns
            invariant
                i <= ns,
                schemas@.len() == i,
                p_u32(bytes@, 0) == Some((w as int, p1 as int)),
                p_u32(bytes@, p1 as int) == Some((h as int, p2 as int)),
                p_u32(bytes@, p2 as int) == Some((ns as int, p3 as int)),
                p_u32(bytes@, p3 as int) == Some((np as int, p4 as int)),
                match p_schemas(bytes@, pos as int, ns as int - i as int) {
                    Some((rest, pe)) => p_schemas(bytes@, p4 as int, ns as int) == Some(
                        (sch_views(schemas@) + rest, pe),
                    ),
                    None => p_schemas(bytes@, p4 as int, ns as int) is None,
                },
                forall|t: int|
                    0 <= t < schemas@.len() ==> u32_ok(
                        (#[trigger] sch_views(schemas@)[t]).bigs.len() as int,
                    ),
            decreases ns - i,
        {
            let (s, q) = match read_schema(bytes, pos) {
                Some(v) => v,
                None => {
                    proof {
                        assert(p_schemas(bytes@, pos as int, ns as int - i as int) is None);
                        assert(p_schemas(bytes@, p4 as int, ns as int) is None);
                        assert(p_zimage(bytes@, kind) is None);
                    }
                    return Err(LoadError::ShortRead);
                },
            };
            let ghost sv = sch_views(schemas@);
            let ghost gs = s@;
            schemas.push(s);
            pos = q;
            proof {
                assert(sch_views(schemas@) =~~= sv.push(gs));
                match p_schemas(bytes@, q as int, ns as int - i as int - 1) {
                    Some((rest2, pe2)) => {
                        assert(sch_views(schemas@) + rest2 =~~= sv + (seq![gs] + rest2));
                    },
                    None => {},
                }
            }
            i = i + 1;
        }
        proof {
            assert(p_schemas(bytes@, pos as int, 0) == Some(
                (Seq::<SchemaV>::empty(), pos as int),
            ));
            assert(sch_views(schemas@) + Seq::<SchemaV>::empty() =~~= sch_views(schemas@));
            assert(p_schemas(bytes@, p4 as int, ns as int) == Some(
                (sch_views(schemas@), pos as int),
            ));
        }
        let ghost gp5 = pos as int;
        let ghost gss = sch_views(schemas@);
        let mut pixels: Vec<Dot> = Vec::new();
        let mut i: u32 = 0;
        assert(dot_views(pixels@) =~= Seq::<DotV>::empty());
        while i < np
            invariant
                i <= np,
                pixels@.len() == i,
                p_u32(bytes@, 0) == Some((w as int, p1 as int)),
                p_u32(bytes@, p1 as int) == Some((h as int, p2 as int)),
                p_u32(bytes@, p2 as int) == Some((ns as int, p3 as int)),
                p_u32(bytes@, p3 as int) == Some((np as int, p4 as int)),
                p_schemas(bytes@, p4 as int, ns as int) == Some((gss, gp5)),
                match p_dots(bytes@, pos as int, np as int - i as int, kind) {
                    Some((rest, pe)) => p_dots(bytes@, gp5, np as int, kind) == Some(
                        (dot_views(pixels@) + rest, pe),
                    ),
                    None => p_dots(bytes@, gp5, np as int, kind) is None,
                },
                forall|t: int|
                    0 <= t < pixels@.len() ==> (#[trigger] pixels@[t]).px.kind() == kind,
            decreases np - i,
        {
            let (x, q1) = match read_u32(bytes, pos) {
                Some(v) => v,
                None => {
                    proof {
                        assert(p_dots(bytes@, pos as int, np as int - i as int, kind) is None);
                        assert(p_zimage(bytes@, kind) is None);
                    }
                    return Err(LoadError::ShortRead);
                },
            };
            let (y, q2) = match read_u32(bytes, q1) {
                Some(v) => v,
                None => {
                    proof {
                        assert(p_dot(bytes@, pos as int, kind) is None);
                        assert(p_dots(bytes@, pos as int, np as int - i as int, kind) is None);
                        assert(p_zimage(bytes@, kind) is None);
                    }
                    return Err(LoadError::ShortRead);
                },
            };
            let (px, q3) = match read_px(bytes, q2, kind) {
                Some(v) => v,
                None => {
                    proof {
                        assert(p_dot(bytes@, pos as int, kind) is None);
                        assert(p_dots(bytes@, pos as int, np as int - i as int, kind) is None);
                        assert(p_zimage(bytes@, kind) is None);
                    }
                    return Err(LoadError::ShortRead);
                },
            };
            let ghost dv = dot_views(pixels@);
            let d = Dot { x, y, px };
            pixels.push(d);
            pos = q3;
            proof {
                assert(dot_views(pixels@) =~= dv.push(d@));
                match p_dots(bytes@, q3 as int, np as int - i as int - 1, kind) {
                    Some((rest2, pe2)) => {
                        assert(dot_views(pixels@) + rest2 =~= dv + (seq![d@] + rest2));
                    },
                    None => {},
                }
            }
            i = i + 1;
        }
        proof {
            assert(p_dots(bytes@, pos as int, 0, kind) == Some(
                (Seq::<DotV>::empty(), pos as int),
            ));
            assert(dot_views(pixels@) + Seq::<DotV>::empty() =~= dot_views(pixels@));
            assert(p_dots(bytes@, gp5, np as int, kind) == Some(
                (dot_views(pixels@), pos as int),
            ));
        }
        let z = ZImage { width: w, height: h, kind, schemas, pixels };
        proof {
            assert(z@ =~~= ZImageV {
                width: w as int,
                height: h as int,
                kind,
                schemas: gss,
                pixels: dot_views(z.pixels@),
            });
            assert(p_zimage(bytes@, kind) == Some(z@));
            assert forall|t: int| 0 <= t < z@.schemas.len() implies schema_ranges(
                #[trigger] z@.schemas[t],
            ) && u32_ok(z@.schemas[t].bigs.len() as int) by {
                let s = z.schemas@[t];
                assert(z@.schemas[t] == s@);
                assert forall|jj: int| 0 <= jj < s@.bigs.len() implies u32_ok(
                    (#[trigger] s@.bigs[jj]).0,
                ) && u32_ok(s@.bigs[jj].1) by {
                    assert(s@.bigs[jj] == (s.bigs@[jj].0 as int, s.bigs@[jj].1 as int));
                }
            }
            assert forall|t: int| 0 <= t < z@.pixels.len() implies {
                &&& u32_ok((#[trigger] z@.pixels[t]).x)
                &&& u32_ok(z@.pixels[t].y)
                &&& z@.pixels[t].px.kind() == z@.kind
            } by {
                assert(z@.pixels[t] == z.pixels@[t]@);
            }
            assert(z@.ranges_ok());
            assert(z@.counts_ok());
        }
        Ok(z)
    }
}

/// Splits a subrange known to equal a concatenation into its two parts.
proof fn lemma_subrange_concat(b: Seq<u8>, pos: int, s1: Seq<u8>, s2: Seq<u8>)
    requires
        0 <= pos,
        pos + s1.len() + s2.len() <= b.len(),
        b.subrange(pos, pos + s1.len() + s2.len()) == s1 + s2,
    ensures
        b.subrange(pos, pos + s1.len() as int) == s1,
        b.subrange(pos + s1.len() as int, pos + s1.len() + s2.len()) == s2,
{
    let whole = b.subrange(pos, pos + s1.len() + s2.len());
    assert forall|i: int| 0 <= i < s1.len() implies b.subrange(pos, pos + s1.len() as int)[i]
        == s1[i] by {
        assert(whole[i] == (s1 + s2)[i]);
    }
    assert(b.subrange(pos, pos + s1.len() as int) =~= s1);
    assert forall|i: int| 0 <= i < s2.len() implies b.subrange(
        pos + s1.len() as int,
        pos + s1.len() + s2.len(),
    )[i] == s2[i] by {
        assert(whole[s1.len() + i] == (s1 + s2)[s1.len() + i]);
    }
    assert(b.subrange(pos + s1.len() as int, pos + s1.len() + s2.len()) =~= s2);
}

/// Parsing inverts serialization for one sample of known layout.
proof fn lemma_rt_px(b: Seq<u8>, pos: int, px: Px, kind: PxKind)
    requires
        px.kind() == kind,
        0 <= pos,
        pos + px.bytes().len() <= b.len(),
        b.subrange(pos, pos + px.bytes().len() as int) == px.bytes(),
    ensures
        p_px(b, pos, kind) == Some((px, pos + px.bytes().len())),
{
    match px {
        Px::Gray(g) => {
            assert(b[pos] == px.bytes()[0]);
        },
        Px::GrayA(g, a) => {
            assert(b[pos] == px.bytes()[0]);
            assert(b[pos + 1] == px.bytes()[1]);
        },
        Px::Rgb(r, g, bb) => {
            assert(b[pos] == px.bytes()[0]);
            assert(b[pos + 1] == px.bytes()[1]);
            assert(b[pos + 2] == px.bytes()[2]);
        },
        Px::Rgba(r, g, bb, a) => {
            assert(b[pos] == px.bytes()[0]);
            assert(b[pos + 1] == px.bytes()[1]);
            assert(b[pos + 2] == px.bytes()[2]);
            assert(b[pos + 3] == px.bytes()[3]);
        },
    }
}

/// Parsing inverts serialization for the tail of a big-region list.
proof fn lemma_rt_bigs(b: Seq<u8>, pos: int, bigs: Seq<(int, int)>, j: int)
    requires
        0 <= j <= bigs.len(),
        0 <= pos,
        pos + bigs_bytes_from(bigs, j).len() <= b.len(),
        b.subrange(pos, pos + bigs_bytes_from(bigs, j).len() as int) == bigs_bytes_from(bigs, j),
        forall|t: int|
            j <= t < bigs.len() ==> u32_ok((#[trigger] bigs[t]).0) && u32_ok(bigs[t].1),
    ensures
        p_bigs(b, pos, bigs.len() - j) == Some(
            (bigs.skip(j), pos + bigs_bytes_from(bigs, j).len()),
        ),
    decreases bigs.len() - j,
{
    let enc = bigs_bytes_from(bigs, j);
    if j == bigs.len() {
        assert(bigs.skip(j) =~= Seq::<(int, int)>::empty());
    } else {
        let x = bigs[j].0;
        let y = bigs[j].1;
        let rest = bigs_bytes_from(bigs, j + 1);
        let s1 = le32(x) + le32(y);
        assert(enc == s1 + rest);
        lemma_subrange_concat(b, pos, s1, rest);
        lemma_subrange_concat(b, pos, le32(x), le32(y));
        lemma_p_u32_of_le32(b, pos, x);
        lemma_p_u32_of_le32(b, pos + 4, y);
        lemma_rt_bigs(b, pos + 8, bigs, j + 1);
        assert(bigs.skip(j) =~= seq![(x, y)] + bigs.skip(j + 1));
    }
}

/// Parsing inverts serialization for one schema.
proof fn lemma_rt_schema(b: Seq<u8>, pos: int, s: SchemaV)
    requires
        schema_ranges(s),
        u32_ok(s.bigs.len() as int),
        0 <= pos,
        pos + schema_bytes(s).len() <= b.len(),
        b.subrange(pos, pos + schema_bytes(s).len() as int) == schema_bytes(s),
    ensures
        p_schema(b, pos) == Some((s, pos + schema_bytes(s).len())),
{
    let enc = schema_bytes(s);
    let bb = bigs_bytes_from(s.bigs, 0);
    let h1 = le32(s.small_x) + le32(s.small_y);
    let h2 = h1 + le32(s.small_wh);
    let h3 = h2 + le32(s.big_wh);
    let h4 = h3 + le32(s.bigs.len() as int);
    assert(enc == h4 + bb);
    lemma_subrange_concat(b, pos, h4, bb);
    lemma_subrange_concat(b, pos, h3, le32(s.bigs.len() as int));
    lemma_subrange_concat(b, pos, h2, le32(s.big_wh));
    lemma_subrange_concat(b, pos, h1, le32(s.small_wh));
    lemma_subrange_concat(b, pos, le32(s.small_x), le32(s.small_y));
    lemma_p_u32_of_le32(b, pos, s.small_x);
    lemma_p_u32_of_le32(b, pos + 4, s.small_y);
    lemma_p_u32_of_le32(b, pos + 8, s.small_wh);
    lemma_p_u32_of_le32(b, pos + 12, s.big_wh);
    lemma_p_u32_of_le32(b, pos + 16, s.bigs.len() as int);
    lemma_rt_bigs(b, pos + 20, s.bigs, 0);
    assert(s.bigs.skip(0) =~= s.bigs);
    assert(p_schema(b, pos) == Some(
        (
            SchemaV {
                small_x: s.small_x,
                small_y: s.small_y,
                small_wh: s.small_wh,
                big_wh: s.big_wh,
                bigs: s.bigs.skip(0),
            },
            pos + enc.len(),
        ),
    ));
    assert(SchemaV {
        small_x: s.small_x,
        small_y: s.small_y,
        small_wh: s.small_wh,
        big_wh: s.big_wh,
        bigs: s.bigs.skip(0),
    } =~~= s);
}

/// Parsing inverts serialization for the tail of the schema list.
proof fn lemma_rt_schemas(b: Seq<u8>, pos: int, ss: Seq<SchemaV>, i: int)
    requires
        0 <= i <= ss.len(),
        0 <= pos,
        pos + schemas_bytes_from(ss, i).len() <= b.len(),
        b.subrange(pos, pos + schemas_bytes_from(ss, i).len() as int) == schemas_bytes_from(
            ss,
            i,
        ),
        forall|t: int|
            i <= t < ss.len() ==> schema_ranges(#[trigger] ss[t]) && u32_ok(
                ss[t].bigs.len() as int,
            ),
    ensures
        p_schemas(b, pos, ss.len() - i) == Some(
            (ss.skip(i), pos + schemas_bytes_from(ss, i).len()),
        ),
    decreases ss.len() - i,
{
    if i == ss.len() {
        assert(ss.skip(i) =~~= Seq::<SchemaV>::empty());
    } else {
        let enc = schemas_bytes_from(ss, i);
        let one = schema_bytes(ss[i]);
        let rest = schemas_bytes_from(ss, i + 1);
        assert(enc == one + rest);
        lemma_subrange_concat(b, pos, one, rest);
        lemma_rt_schema(b, pos, ss[i]);
        lemma_rt_schemas(b, pos + one.len() as int, ss, i + 1);
        assert(ss.skip(i) =~~= seq![ss[i]] + ss.skip(i + 1));
    }
}

/// Parsing inverts serialization for the tail of the residual dot list.
proof fn lemma_rt_dots(b: Seq<u8>, pos: int, ds: Seq<DotV>, i: int, kind: PxKind)
    requires
        0 <= i <= ds.len(),
        0 <= pos,
        pos + dots_bytes_from(ds, i).len() <= b.len(),
        b.subrange(pos, pos + dots_bytes_from(ds, i).len() as int) == dots_bytes_from(ds, i),
        forall|t: int|
            i <= t < ds.len() ==> {
                &&& u32_ok((#[trigger] ds[t]).x)
                &&& u32_ok(ds[t].y)
                &&& ds[t].px.kind() == kind
            },
    ensures
        p_dots(b, pos, ds.len() - i, kind) == Some(
            (ds.skip(i), pos + dots_bytes_from(ds, i).len()),
        ),
    decreases ds.len() - i,
{
    if i == ds.len() {
        assert(ds.skip(i) =~= Seq::<DotV>::empty());
    } else {
        let enc = dots_bytes_from(ds, i);
        let d = ds[i];
        let rest = dots_bytes_from(ds, i + 1);
        let h1 = le32(d.x) + le32(d.y);
        assert(enc == dot_bytes(d) + rest);
        assert(dot_bytes(d) == h1 + d.px.bytes());
        lemma_subrange_concat(b, pos, dot_bytes(d), rest);
        lemma_subrange_concat(b, pos, h1, d.px.bytes());
        lemma_subrange_concat(b, pos, le32(d.x), le32(d.y));
        lemma_p_u32_of_le32(b, pos, d.x);
        lemma_p_u32_of_le32(b, pos + 4, d.y);
        lemma_rt_px(b, pos + 8, d.px, kind);
        assert(p_dot(b, pos, kind) == Some(
            (DotV { x: d.x, y: d.y, px: d.px }, pos + dot_bytes(d).len()),
        ));
        assert(DotV { x: d.x, y: d.y, px: d.px } == d);
        lemma_rt_dots(b, pos + dot_bytes(d).len() as int, ds, i + 1, kind);
        assert(ds.skip(i) =~= seq![d] + ds.skip(i + 1));
    }
}

/// The container round-trips: parsing the serialized bytes of a compressed
/// image, with the layout it was written with, restores it exactly, field
/// by field, schema by schema and dot by dot.
pub proof fn lemma_container_round_trip(z: ZImageV)
    requires
        z.ranges_ok(),
        z.counts_ok(),
    ensures
        p_zimage(zimage_bytes(z), z.kind) == Some(z),
{
    let b = zimage_bytes(z);
    let sb = schemas_bytes_from(z.schemas, 0);
    let db = dots_bytes_from(z.pixels, 0);
    let h1 = le32(z.width) + le32(z.height);
    let h2 = h1 + le32(z.schemas.len() as int);
    let h3 = h2 + le32(z.pixels.len() as int);
    let h4 = h3 + sb;
    assert(b == h4 + db);
    assert(b.subrange(0, b.len() as int) =~= b);
    lemma_subrange_concat(b, 0, h4, db);
    lemma_subrange_concat(b, 0, h3, sb);
    lemma_subrange_concat(b, 0, h2, le32(z.pixels.len() as int));
    lemma_subrange_concat(b, 0, h1, le32(z.schemas.len() as int));
    lemma_subrange_concat(b, 0, le32(z.width), le32(z.height));
    lemma_p_u32_of_le32(b, 0, z.width);
    lemma_p_u32_of_le32(b, 4, z.height);
    lemma_p_u32_of_le32(b, 8, z.schemas.len() as int);
    lemma_p_u32_of_le32(b, 12, z.pixels.len() as int);
    lemma_rt_schemas(b, 16, z.schemas, 0);
    assert(z.schemas.skip(0) =~~= z.schemas);
    lemma_rt_dots(b, 16 + sb.len() as int, z.pixels, 0, z.kind);
    assert(z.pixels.skip(0) =~= z.pixels);
    assert(p_zimage(b, z.kind) == Some(
        ZImageV {
            width: z.width,
            height: z.height,
            kind: z.kind,
            schemas: z.schemas.skip(0),
            pixels: z.pixels.skip(0),
        },
    ));
    assert(ZImageV {
        width: z.width,
        height: z.height,
        kind: z.kind,
        schemas: z.schemas.skip(0),
        pixels: z.pixels.skip(0),
    } =~~= z);
}

} // verus!
