//! The compression core: the grid scan that finds self-similar regions,
//! the compressed data model, and the reconstruction that materializes it.

use vstd::prelude::*;

use vstd::arithmetic::div_mod::{lemma_fundamental_div_mod, lemma_fundamental_div_mod_converse};

use crate::buffer::{lemma_pidx_in_range, pidx, Buffer};
use crate::px::{Px, PxKind};
use crate::rect::Rect;

verus! {

/// Side length of a small (source) square region.
pub const SMALL_WH: u32 = 3;

/// Side length of a big (derived) square region, one grid cell.
pub const BIG_WH: u32 = 6;

/// Scale factor between a small and a big region.
pub const LIKE_SCALE: u32 = 2;

/// Largest dissimilarity numerator still counted as "alike": the metric
/// `s / 255` is at most one half exactly when the integer numerator `s`
/// is at most 127.
pub const EPS_DELTA_NUM: i32 = 127;

/// One recorded self-similarity: a small square region and the big square
/// regions it reproduces on reconstruction.
pub struct Schema {
    pub small_x: u32,
    pub small_y: u32,
    pub small_wh: u32,
    pub big_wh: u32,
    pub bigs: Vec<(u32, u32)>,
}

#[verifier::ext_equal]
pub ghost struct SchemaV {
    pub small_x: int,
    pub small_y: int,
    pub small_wh: int,
    pub big_wh: int,
    pub bigs: Seq<(int, int)>,
}

impl View for Schema {
    type V = SchemaV;

    open spec fn view(&self) -> SchemaV {
        SchemaV {
            small_x: self.small_x as int,
            small_y: self.small_y as int,
            small_wh: self.small_wh as int,
            big_wh: self.big_wh as int,
            bigs: self.bigs@.map_values(|p: (u32, u32)| (p.0 as int, p.1 as int)),
        }
    }
}

/// One residual pixel, stored verbatim.
pub struct Dot {
    pub x: u32,
    pub y: u32,
    pub px: Px,
}

#[verifier::ext_equal]
pub ghost struct DotV {
    pub x: int,
    pub y: int,
    pub px: Px,
}

impl View for Dot {
    type V = DotV;

    open spec fn view(&self) -> DotV {
        DotV { x: self.x as int, y: self.y as int, px: self.px }
    }
}

/// The compressed form of one image: its dimensions, the recorded
/// self-similarities, and the residual pixels.
pub struct ZImage {
    pub width: u32,
    pub height: u32,
    pub kind: PxKind,
    pub schemas: Vec<Schema>,
    pub pixels: Vec<Dot>,
}

#[verifier::ext_equal]
pub ghost struct ZImageV {
    pub width: int,
    pub height: int,
    pub kind: PxKind,
    pub schemas: Seq<SchemaV>,
    pub pixels: Seq<DotV>,
}

impl View for ZImage {
    type V = ZImageV;

    open spec fn view(&self) -> ZImageV {
        ZImageV {
            width: self.width as int,
            height: self.height as int,
            kind: self.kind,
            schemas: self.schemas@.map_values(|s: Schema| s@),
            pixels: self.pixels@.map_values(|d: Dot| d@),
        }
    }
}

pub open spec fn u32_ok(v: int) -> bool {
    0 <= v < 0x1_0000_0000
}

/// Every coordinate field of the schema is representable as a 32-bit value.
pub open spec fn schema_ranges(s: SchemaV) -> bool {
    &&& u32_ok(s.small_x)
    &&& u32_ok(s.small_y)
    &&& u32_ok(s.small_wh)
    &&& u32_ok(s.big_wh)
    &&& forall|j: int|
        0 <= j < s.bigs.len() ==> u32_ok((#[trigger] s.bigs[j]).0) && u32_ok(s.bigs[j].1)
}

/// The schema describes regions that lie inside a `width` x `height` image:
/// a non-degenerate small square, a big side that is a whole multiple of the
/// small side, and at least one big region.
pub open spec fn schema_wf(s: SchemaV, width: int, height: int) -> bool {
    &&& 0 < s.small_wh
    &&& s.big_wh % s.small_wh == 0
    &&& 0 <= s.small_x && s.small_x + s.small_wh <= width
    &&& 0 <= s.small_y && s.small_y + s.small_wh <= height
    &&& s.bigs.len() > 0
    &&& forall|j: int|
        0 <= j < s.bigs.len() ==> {
            &&& 0 <= (#[trigger] s.bigs[j]).0 && s.bigs[j].0 + s.big_wh <= width
            &&& 0 <= s.bigs[j].1 && s.bigs[j].1 + s.big_wh <= height
        }
}

impl ZImageV {
    /// Coordinates and schema fields fit in 32 bits, and every residual
    /// sample has the image's layout.
    pub open spec fn ranges_ok(self) -> bool {
        &&& u32_ok(self.width)
        &&& u32_ok(self.height)
        &&& forall|i: int| 0 <= i < self.schemas.len() ==> schema_ranges(#[trigger] self.schemas[i])
        &&& forall|i: int|
            0 <= i < self.pixels.len() ==> {
                &&& u32_ok((#[trigger] self.pixels[i]).x)
                &&& u32_ok(self.pixels[i].y)
                &&& self.pixels[i].px.kind() == self.kind
            }
    }

    /// The list lengths fit in the container's 32-bit counters.
    pub open spec fn counts_ok(self) -> bool {
        &&& u32_ok(self.schemas.len() as int)
        &&& u32_ok(self.pixels.len() as int)
        &&& forall|i: int| 0 <= i < self.schemas.len() ==> u32_ok((#[trigger] self.schemas[i]).bigs.len() as int)
    }

    /// Every schema and every residual pixel lies inside the image.
    pub open spec fn geom_ok(self) -> bool {
        &&& forall|i: int|
            0 <= i < self.schemas.len() ==> schema_wf(
                #[trigger] self.schemas[i],
                self.width,
                self.height,
            )
        &&& forall|i: int|
            0 <= i < self.pixels.len() ==> {
                &&& 0 <= (#[trigger] self.pixels[i]).x < self.width
                &&& 0 <= self.pixels[i].y < self.height
            }
    }

    pub open spec fn wf(self) -> bool {
        self.ranges_ok() && self.geom_ok()
    }
}

/// One comparison of the similarity test: the small sample at offset
/// `(dx, dy)` against the big sample at sub-position `(nx, ny)` of the
/// corresponding `n` x `n` block.
pub open spec fn like_at(
    b: Buffer,
    sx: int,
    sy: int,
    bx: int,
    by: int,
    n: int,
    max: int,
    dx: int,
    dy: int,
    nx: int,
    ny: int,
) -> bool {
    b.spec_get(sx + dx, sy + dy).spec_delta_num(
        b.spec_get(bx + dx * n + nx, by + dy * n + ny),
    ) <= max
}

/// The regions are alike: every sample of the small region is within the
/// threshold of every sample of its scaled block in the big region.
pub open spec fn like_all(
    b: Buffer,
    sx: int,
    sy: int,
    sw: int,
    sh: int,
    bx: int,
    by: int,
    n: int,
    max: int,
) -> bool {
    forall|dx: int, dy: int, nx: int, ny: int|
        0 <= dx < sw && 0 <= dy < sh && 0 <= nx < n && 0 <= ny < n ==> like_at(
            b,
            sx,
            sy,
            bx,
            by,
            n,
            max,
            dx,
            dy,
            nx,
            ny,
        )
}

pub open spec fn is_like_spec(b: Buffer, s: Rect, bg: Rect, n: int, max: int) -> bool {
    like_all(b, s.x as int, s.y as int, s.w as int, s.h as int, bg.x as int, bg.y as int, n, max)
}

/// The schemas and the unzipped cell origins accumulated by the grid scan.
#[verifier::ext_equal]
pub ghost struct ScanSt {
    pub schemas: Seq<SchemaV>,
    pub unzipped: Seq<(int, int)>,
}

/// The schema's small square falls inside the big cell at `(bx, by)`, which
/// bars the cell from being zipped.
pub open spec fn prune_at(s: SchemaV, bx: int, by: int) -> bool {
    &&& s.small_x >= bx && s.small_x + s.small_wh < bx + BIG_WH as int
    &&& s.small_y >= by && s.small_y + s.small_wh < by + BIG_WH as int
}

pub open spec fn prune_hit(schemas: Seq<SchemaV>, bx: int, by: int) -> bool {
    exists|i: int| 0 <= i < schemas.len() && prune_at(#[trigger] schemas[i], bx, by)
}

/// Origin of candidate number `k` of the fixed 3 x 3 grid of small regions,
/// in scan order: both coordinates descending, `x` outermost.
pub open spec fn cand_pos(k: int) -> (int, int) {
    ((2 - k / 3) * SMALL_WH as int, (2 - k % 3) * SMALL_WH as int)
}

/// The candidate's square lies inside the image.
pub open spec fn cand_fits(b: Buffer, cx: int, cy: int) -> bool {
    cx + SMALL_WH as int <= b.width && cy + SMALL_WH as int <= b.height
}

/// The candidate's origin lies inside the big cell: such a candidate is
/// never matched against that cell.
pub open spec fn cand_overlaps(cx: int, cy: int, bx: int, by: int) -> bool {
    bx <= cx < bx + BIG_WH as int && by <= cy < by + BIG_WH as int
}

pub open spec fn cand_ok(b: Buffer, bx: int, by: int, k: int) -> bool {
    let (cx, cy) = cand_pos(k);
    &&& cand_fits(b, cx, cy)
    &&& !cand_overlaps(cx, cy, bx, by)
    &&& like_all(
        b,
        cx,
        cy,
        SMALL_WH as int,
        SMALL_WH as int,
        bx,
        by,
        LIKE_SCALE as int,
        EPS_DELTA_NUM as int,
    )
}

/// The first candidate at or after number `k` that matches the big cell at
/// `(bx, by)`, if any.
pub open spec fn first_cand(b: Buffer, bx: int, by: int, k: int) -> Option<(int, int)>
    decreases 9 - k,
{
    if k < 0 || k >= 9 {
        None
    } else if cand_ok(b, bx, by, k) {
        Some(cand_pos(k))
    } else {
        first_cand(b, bx, by, k + 1)
    }
}

/// The first schema at or after index `i` whose small region starts at
/// `(cx, cy)`, if any.
pub open spec fn find_sch(schemas: Seq<SchemaV>, cx: int, cy: int, i: int) -> Option<int>
    decreases schemas.len() - i,
{
    if i < 0 || i >= schemas.len() {
        None
    } else if schemas[i].small_x == cx && schemas[i].small_y == cy {
        Some(i)
    } else {
        find_sch(schemas, cx, cy, i + 1)
    }
}

/// Records a match of the small region at `(cx, cy)` to the big cell at
/// `(bx, by)`: the cell is appended to an existing schema for that small
/// region, or a fresh schema is appended.
pub open spec fn add_big(schemas: Seq<SchemaV>, cx: int, cy: int, bx: int, by: int) -> Seq<
    SchemaV,
> {
    match find_sch(schemas, cx, cy, 0) {
        Some(i) => schemas.update(
            i,
            SchemaV { bigs: schemas[i].bigs.push((bx, by)), ..schemas[i] },
        ),
        None => schemas.push(
            SchemaV {
                small_x: cx,
                small_y: cy,
                small_wh: SMALL_WH as int,
                big_wh: BIG_WH as int,
                bigs: seq![(bx, by)],
            },
        ),
    }
}

/// The decision for one big cell: pruned or unmatched cells are recorded as
/// unzipped; the first matching candidate, if any, is recorded as a schema
/// entry.
pub open spec fn scan_cell(b: Buffer, st: ScanSt, bx: int, by: int) -> ScanSt {
    if prune_hit(st.schemas, bx, by) {
        ScanSt { unzipped: st.unzipped.push((bx, by)), ..st }
    } else {
        match first_cand(b, bx, by, 0) {
            Some((cx, cy)) => ScanSt { schemas: add_big(st.schemas, cx, cy, bx, by), ..st },
            None => ScanSt { unzipped: st.unzipped.push((bx, by)), ..st },
        }
    }
}

/// Number of big cells per column of the grid.
pub open spec fn grid_h(b: Buffer) -> int {
    b.height as int / BIG_WH as int
}

/// Number of big cells per row of the grid.
pub open spec fn grid_w(b: Buffer) -> int {
    b.width as int / BIG_WH as int
}

/// The scan state after the first `c` cells, where cell number `c` is the
/// cell at grid position `(c / grid_h, c % grid_h)`: column-major order,
/// `x` outermost.
pub open spec fn scan_upto(b: Buffer, c: int) -> ScanSt
    decreases c,
{
    if c <= 0 {
        ScanSt { schemas: Seq::empty(), unzipped: Seq::empty() }
    } else {
        scan_cell(
            b,
            scan_upto(b, c - 1),
            ((c - 1) / grid_h(b)) * BIG_WH as int,
            ((c - 1) % grid_h(b)) * BIG_WH as int,
        )
    }
}

/// The full grid scan of the image.
pub open spec fn zip_scan(b: Buffer) -> ScanSt {
    scan_upto(b, grid_w(b) * grid_h(b))
}

/// The residual dots of the unzipped cell at `(rx, ry)`: all of its samples
/// verbatim, `x` outer, `y` inner.
pub open spec fn cell_dots(b: Buffer, rx: int, ry: int) -> Seq<DotV> {
    Seq::new(
        (BIG_WH * BIG_WH) as nat,
        |t: int|
            DotV {
                x: rx + t / BIG_WH as int,
                y: ry + t % BIG_WH as int,
                px: b.spec_get(rx + t / BIG_WH as int, ry + t % BIG_WH as int),
            },
    )
}

/// The residual dots of the first `i` unzipped cells, in scan order.
pub open spec fn residuals_upto(b: Buffer, cells: Seq<(int, int)>, i: int) -> Seq<DotV>
    decreases i,
{
    if i <= 0 {
        Seq::empty()
    } else {
        residuals_upto(b, cells, i - 1) + cell_dots(b, cells[i - 1].0, cells[i - 1].1)
    }
}

/// The compressed form of the image: what the grid scan recorded, plus the
/// residual dots of every unzipped cell.
pub open spec fn zip_spec(b: Buffer) -> ZImageV {
    let st = zip_scan(b);
    ZImageV {
        width: b.width as int,
        height: b.height as int,
        kind: b.kind,
        schemas: st.schemas,
        pixels: residuals_upto(b, st.unzipped, st.unzipped.len() as int),
    }
}

/// Each unzipped cell contributes exactly one dot per sample.
proof fn lemma_residuals_len(b: Buffer, cells: Seq<(int, int)>, i: int)
    requires
        0 <= i,
    ensures
        residuals_upto(b, cells, i).len() == (BIG_WH * BIG_WH) * i,
    decreases i,
{
    if i > 0 {
        lemma_residuals_len(b, cells, i - 1);
        assert(cell_dots(b, cells[i - 1].0, cells[i - 1].1).len() == 36);
        assert((BIG_WH * BIG_WH) * i == 36 * i);
    }
}

/// Whether the small region `rect_s` is reproduced, within the threshold
/// `max_num` on the dissimilarity numerator, by the region at `rect_b` at
/// scale `n`: each small sample is compared with every sample of its
/// `n` x `n` block.
pub fn is_like(pic: &Buffer, rect_s: &Rect, rect_b: &Rect, n: u32, max_num: i32) -> (r: bool)
    requires
        pic.wf(),
        rect_s.x + rect_s.w <= pic.width,
        rect_s.y + rect_s.h <= pic.height,
        rect_b.x + rect_s.w * n <= pic.width,
        rect_b.y + rect_s.h * n <= pic.height,
    ensures
        r == is_like_spec(*pic, *rect_s, *rect_b, n as int, max_num as int),
{
    let sx = rect_s.x;
    let sy = rect_s.y;
    let bx = rect_b.x;
    let by = rect_b.y;
    let ghost sw = rect_s.w as int;
    let ghost sh = rect_s.h as int;
    let ghost gn = n as int;
    let ghost gm = max_num as int;
    let mut dx: u32 = 0;
    while dx < rect_s.w
        invariant
            pic.wf(),
            sx == rect_s.x,
            sy == rect_s.y,
            bx == rect_b.x,
            by == rect_b.y,
            sw == rect_s.w,
            sh == rect_s.h,
            gn == n,
            gm == max_num,
            rect_s.x + rect_s.w <= pic.width,
            rect_s.y + rect_s.h <= pic.height,
            rect_b.x + rect_s.w * n <= pic.width,
            rect_b.y + rect_s.h * n <= pic.height,
            dx <= rect_s.w,
            forall|dx0: int, dy0: int, nx0: int, ny0: int|
                0 <= dx0 < dx && 0 <= dy0 < sh && 0 <= nx0 < gn && 0 <= ny0 < gn ==> like_at(
                    *pic,
                    sx as int,
                    sy as int,
                    bx as int,
                    by as int,
                    gn,
                    gm,
                    dx0,
                    dy0,
                    nx0,
                    ny0,
                ),
        decreases rect_s.w - dx,
    {
        proof {
            assert(dx * gn + gn <= sw * gn) by (nonlinear_arith)
                requires
                    0 <= dx < sw,
                    0 <= gn,
            ;
        }
        let s_x = sx + dx;
        let b_x0 = bx + dx * n;
        let mut dy: u32 = 0;
        while dy < rect_s.h
            invariant
                pic.wf(),
                sx == rect_s.x,
                sy == rect_s.y,
                bx == rect_b.x,
                by == rect_b.y,
                sw == rect_s.w,
                sh == rect_s.h,
                gn == n,
                gm == max_num,
                rect_s.x + rect_s.w <= pic.width,
                rect_s.y + rect_s.h <= pic.height,
                rect_b.x + rect_s.w * n <= pic.width,
                rect_b.y + rect_s.h * n <= pic.height,
                dx < rect_s.w,
                dy <= rect_s.h,
                s_x == sx + dx,
                b_x0 == bx + dx * n,
                dx * gn + gn <= sw * gn,
                forall|dx0: int, dy0: int, nx0: int, ny0: int|
                    0 <= dx0 < dx && 0 <= dy0 < sh && 0 <= nx0 < gn && 0 <= ny0 < gn ==> like_at(
                        *pic,
                        sx as int,
                        sy as int,
                        bx as int,
                        by as int,
                        gn,
                        gm,
                        dx0,
                        dy0,
                        nx0,
                        ny0,
                    ),
                forall|dy0: int, nx0: int, ny0: int|
                    0 <= dy0 < dy && 0 <= nx0 < gn && 0 <= ny0 < gn ==> like_at(
                        *pic,
                        sx as int,
                        sy as int,
                        bx as int,
                        by as int,
                        gn,
                        gm,
                        dx as int,
                        dy0,
                        nx0,
                        ny0,
                    ),
            decreases rect_s.h - dy,
        {
            proof {
                assert(dy * gn + gn <= sh * gn) by (nonlinear_arith)
                    requires
                        0 <= dy < sh,
                        0 <= gn,
                ;
            }
            let s_y = sy + dy;
            let b_y0 = by + dy * n;
            let s_pix = pic.get(s_x, s_y);
            let mut nx: u32 = 0;
            while nx < n
                invariant
                    pic.wf(),
                    sx == rect_s.x,
                    sy == rect_s.y,
                    bx == rect_b.x,
                    by == rect_b.y,
                    sw == rect_s.w,
                    sh == rect_s.h,
                    gn == n,
                    gm == max_num,
                    rect_b.x + rect_s.w * n <= pic.width,
                    rect_b.y + rect_s.h * n <= pic.height,
                    dx < rect_s.w,
                    dy < rect_s.h,
                    nx <= n,
                    s_x == sx + dx,
                    s_y == sy + dy,
                    b_x0 == bx + dx * n,
                    b_y0 == by + dy * n,
                    dx * gn + gn <= sw * gn,
                    dy * gn + gn <= sh * gn,
                    s_pix == pic.spec_get(s_x as int, s_y as int),
                    s_pix.kind() == pic.kind,
                    forall|nx0: int, ny0: int|
                        0 <= nx0 < nx && 0 <= ny0 < gn ==> like_at(
                            *pic,
                            sx as int,
                            sy as int,
                            bx as int,
                            by as int,
                            gn,
                            gm,
                            dx as int,
                            dy as int,
                            nx0,
                            ny0,
                        ),
                decreases n - nx,
            {
                let mut ny: u32 = 0;
                while ny < n
                    invariant
                        pic.wf(),
                        sx == rect_s.x,
                        sy == rect_s.y,
                        bx == rect_b.x,
                        by == rect_b.y,
                        sw == rect_s.w,
                        sh == rect_s.h,
                        gn == n,
                        gm == max_num,
                        rect_b.x + rect_s.w * n <= pic.width,
                        rect_b.y + rect_s.h * n <= pic.height,
                        dx < rect_s.w,
                        dy < rect_s.h,
                        nx < n,
                        ny <= n,
                        s_x == sx + dx,
                        s_y == sy + dy,
                        b_x0 == bx + dx * n,
                        b_y0 == by + dy * n,
                        dx * gn + gn <= sw * gn,
                        dy * gn + gn <= sh * gn,
                        s_pix == pic.spec_get(s_x as int, s_y as int),
                        s_pix.kind() == pic.kind,
                        forall|ny0: int|
                            0 <= ny0 < ny ==> like_at(
                                *pic,
                                sx as int,
                                sy as int,
                                bx as int,
                                by as int,
                                gn,
                                gm,
                                dx as int,
                                dy as int,
                                nx as int,
                                ny0,
                            ),
                    decreases n - ny,
                {
                    let q = pic.get(b_x0 + nx, b_y0 + ny);
                    if s_pix.delta_num(&q) > max_num {
                        proof {
                            assert(!like_at(
                                *pic,
                                sx as int,
                                sy as int,
                                bx as int,
                                by as int,
                                gn,
                                gm,
                                dx as int,
                                dy as int,
                                nx as int,
                                ny as int,
                            ));
                        }
                        return false;
                    }
                    ny = ny + 1;
                }
                nx = nx + 1;
            }
            dy = dy + 1;
        }
        dx = dx + 1;
    }
    true
}

/// The views of the schemas as the scan specification sees them.
pub open spec fn sch_views(v: Seq<Schema>) -> Seq<SchemaV> {
    v.map_values(|s: Schema| s@)
}

/// The views of the unzipped cell origins.
pub open spec fn cell_views(v: Seq<(u32, u32)>) -> Seq<(int, int)> {
    v.map_values(|p: (u32, u32)| (p.0 as int, p.1 as int))
}

/// A schema as the scan produces it: sides fixed at the design constants,
/// small origin on the grid of small squares, every region inside the image.
pub open spec fn scan_schema_ok(s: SchemaV, width: int, height: int) -> bool {
    &&& s.small_wh == SMALL_WH as int
    &&& s.big_wh == BIG_WH as int
    &&& s.small_x % SMALL_WH as int == 0
    &&& s.small_y % SMALL_WH as int == 0
    &&& schema_wf(s, width, height)
    &&& schema_ranges(s)
}

pub open spec fn scan_schemas_ok(ss: Seq<SchemaV>, width: int, height: int) -> bool {
    forall|i: int| 0 <= i < ss.len() ==> scan_schema_ok(#[trigger] ss[i], width, height)
}

/// Every recorded cell origin admits a whole big square inside the image.
pub open spec fn cells_ok(cs: Seq<(int, int)>, width: int, height: int) -> bool {
    forall|i: int|
        0 <= i < cs.len() ==> {
            &&& 0 <= (#[trigger] cs[i]).0 && cs[i].0 + BIG_WH as int <= width
            &&& 0 <= cs[i].1 && cs[i].1 + BIG_WH as int <= height
        }
}

/// Decides one big cell, carrying the scan state in `schemas` and
/// `unzipped`, exactly as `scan_cell` describes.
fn scan_one_cell(
    img: &Buffer,
    schemas: &mut Vec<Schema>,
    unzipped: &mut Vec<(u32, u32)>,
    big_x: u32,
    big_y: u32,
)
    requires
        img.wf(),
        big_x + BIG_WH <= img.width,
        big_y + BIG_WH <= img.height,
        scan_schemas_ok(sch_views(old(schemas)@), img.width as int, img.height as int),
        cells_ok(cell_views(old(unzipped)@), img.width as int, img.height as int),
    ensures
        ({
            let st = scan_cell(
                *img,
                ScanSt {
                    schemas: sch_views(old(schemas)@),
                    unzipped: cell_views(old(unzipped)@),
                },
                big_x as int,
                big_y as int,
            );
            &&& sch_views(final(schemas)@) == st.schemas
            &&& cell_views(final(unzipped)@) == st.unzipped
        }),
        scan_schemas_ok(sch_views(final(schemas)@), img.width as int, img.height as int),
        cells_ok(cell_views(final(unzipped)@), img.width as int, img.height as int),
{
    let ghost s0 = sch_views(schemas@);
    let ghost u0 = cell_views(unzipped@);
    let ghost gbx = big_x as int;
    let ghost gby = big_y as int;

    // Reuse pruning: a small region generated inside this cell bars it.
    let mut pruned = false;
    let mut i: usize = 0;
    let n_sch = schemas.len();
    while i < n_sch
        invariant
            img.wf(),
            big_x + BIG_WH <= img.width,
            big_y + BIG_WH <= img.height,
            n_sch == schemas@.len(),
            i <= n_sch,
            gbx == big_x as int,
            gby == big_y as int,
            s0 == sch_views(schemas@),
            scan_schemas_ok(s0, img.width as int, img.height as int),
            pruned == exists|t: int| 0 <= t < i && prune_at(#[trigger] s0[t], gbx, gby),
        decreases n_sch - i,
    {
        let s = &schemas[i];
        assert(s@ == s0[i as int]);
        let hit = s.small_x >= big_x && s.small_x + s.small_wh < big_x + BIG_WH && s.small_y
            >= big_y && s.small_y + s.small_wh < big_y + BIG_WH;
        assert(hit == prune_at(s0[i as int], gbx, gby));
        if hit {
            pruned = true;
        }
        i = i + 1;
    }
    assert(pruned == prune_hit(s0, gbx, gby));

    if pruned {
        unzipped.push((big_x, big_y));
        proof {
            assert(cell_views(unzipped@) =~= u0.push((gbx, gby)));
        }
        return ;
    }
    // Candidate search over the fixed grid of small regions.
    let mut found: Option<(u32, u32)> = None;
    let mut k: u32 = 0;
    while k < 9
        invariant
            img.wf(),
            big_x + BIG_WH <= img.width,
            big_y + BIG_WH <= img.height,
            k <= 9,
            gbx == big_x as int,
            gby == big_y as int,
            match found {
                None => first_cand(*img, gbx, gby, 0) == first_cand(*img, gbx, gby, k as int),
                Some(p) => {
                    &&& first_cand(*img, gbx, gby, 0) == Some((p.0 as int, p.1 as int))
                    &&& p.0 + SMALL_WH <= img.width
                    &&& p.1 + SMALL_WH <= img.height
                    &&& p.0 as int % SMALL_WH as int == 0
                    &&& p.1 as int % SMALL_WH as int == 0
                },
            },
        decreases 9 - k,
    {
        if found.is_none() {
            let kd = k / 3;
            let km = k % 3;
            let cx = (2 - kd) * SMALL_WH;
            let cy = (2 - km) * SMALL_WH;
            assert((cx as int, cy as int) == cand_pos(k as int));
            assert(cx as int % SMALL_WH as int == 0 && cy as int % SMALL_WH as int == 0);
            let fits = cx + SMALL_WH <= img.width && cy + SMALL_WH <= img.height;
            let overlaps = cx >= big_x && cx < big_x + BIG_WH && cy >= big_y && cy < big_y
                + BIG_WH;
            if fits && !overlaps {
                let rs = Rect { x: cx, y: cy, w: SMALL_WH, h: SMALL_WH };
                let rb = Rect { x: big_x, y: big_y, w: BIG_WH, h: BIG_WH };
                if is_like(img, &rs, &rb, LIKE_SCALE, EPS_DELTA_NUM) {
                    found = Some((cx, cy));
                    proof {
                        assert(cand_ok(*img, gbx, gby, k as int));
                        assert(first_cand(*img, gbx, gby, k as int) == Some(
                            (cx as int, cy as int),
                        ));
                    }
                } else {
                    proof {
                        assert(!cand_ok(*img, gbx, gby, k as int));
                    }
                }
            } else {
                proof {
                    assert(!cand_ok(*img, gbx, gby, k as int));
                }
            }
        }
        k = k + 1;
    }
    match found {
        None => {
            assert(first_cand(*img, gbx, gby, 0) is None);
            unzipped.push((big_x, big_y));
            proof {
                assert(cell_views(unzipped@) =~= u0.push((gbx, gby)));
            }
        },
        Some((cx, cy)) => {
            let ghost gcx = cx as int;
            let ghost gcy = cy as int;
            // Extend the schema already keyed by this small region, if any.
            let mut at: Option<usize> = None;
            let n_sch = schemas.len();
            let mut i: usize = 0;
            while i < n_sch
                invariant
                    n_sch == schemas@.len(),
                    i <= n_sch,
                    gcx == cx as int,
                    gcy == cy as int,
                    s0 == sch_views(schemas@),
                    match at {
                        None => find_sch(s0, gcx, gcy, i as int) == find_sch(s0, gcx, gcy, 0),
                        Some(j) => j < n_sch && find_sch(s0, gcx, gcy, 0) == Some(j as int),
                    },
                decreases n_sch - i,
            {
                if at.is_none() {
                    assert(schemas@[i as int]@ == s0[i as int]);
                    if schemas[i].small_x == cx && schemas[i].small_y == cy {
                        at = Some(i);
                    }
                }
                i = i + 1;
            }
            match at {
                None => {
                    assert(find_sch(s0, gcx, gcy, 0) is None);
                    schemas.push(
                        Schema {
                            small_x: cx,
                            small_y: cy,
                            small_wh: SMALL_WH,
                            big_wh: BIG_WH,
                            bigs: vec![(big_x, big_y)],
                        },
                    );
                    proof {
                        assert(sch_views(schemas@) =~~= add_big(s0, gcx, gcy, gbx, gby));
                    }
                },
                Some(j) => {
                    let mut s = schemas.remove(j);
                    s.bigs.push((big_x, big_y));
                    schemas.insert(j, s);
                    proof {
                        assert(schemas@ =~= old(schemas)@.update(j as int, s));
                        assert(s@.bigs =~= s0[j as int].bigs.push((gbx, gby)));
                        assert(sch_views(schemas@) =~~= add_big(s0, gcx, gcy, gbx, gby));
                    }
                },
            }
        },
    }
}

/// The views of the residual dots.
pub open spec fn dot_views(v: Seq<Dot>) -> Seq<DotV> {
    v.map_values(|d: Dot| d@)
}

/// Scans the whole cell grid in column-major order, `x` outermost, and
/// returns the recorded schemas and the unzipped cell origins.
fn zip_rec(img: &Buffer) -> (r: (Vec<Schema>, Vec<(u32, u32)>))
    requires
        img.wf(),
    ensures
        sch_views(r.0@) == zip_scan(*img).schemas,
        cell_views(r.1@) == zip_scan(*img).unzipped,
        scan_schemas_ok(sch_views(r.0@), img.width as int, img.height as int),
        cells_ok(cell_views(r.1@), img.width as int, img.height as int),
{
    let bw = img.width / BIG_WH;
    let bh = img.height / BIG_WH;
    let mut schemas: Vec<Schema> = Vec::new();
    let mut unzipped: Vec<(u32, u32)> = Vec::new();
    assert(cell_views(unzipped@) =~= Seq::<(int, int)>::empty());
    assert(sch_views(schemas@) =~= Seq::<SchemaV>::empty());
    let mut x: u32 = 0;
    while x < bw
        invariant
            img.wf(),
            bw == grid_w(*img),
            bh == grid_h(*img),
            x <= bw,
            sch_views(schemas@) == scan_upto(*img, x as int * bh as int).schemas,
            cell_views(unzipped@) == scan_upto(*img, x as int * bh as int).unzipped,
            scan_schemas_ok(sch_views(schemas@), img.width as int, img.height as int),
            cells_ok(cell_views(unzipped@), img.width as int, img.height as int),
        decreases bw - x,
    {
        let mut y: u32 = 0;
        while y < bh
            invariant
                img.wf(),
                bw == grid_w(*img),
                bh == grid_h(*img),
                x < bw,
                y <= bh,
                sch_views(schemas@) == scan_upto(*img, x as int * bh as int + y as int).schemas,
                cell_views(unzipped@) == scan_upto(
                    *img,
                    x as int * bh as int + y as int,
                ).unzipped,
                scan_schemas_ok(sch_views(schemas@), img.width as int, img.height as int),
                cells_ok(cell_views(unzipped@), img.width as int, img.height as int),
            decreases bh - y,
        {
            proof {
                assert((x as int + 1) * BIG_WH as int <= grid_w(*img) * BIG_WH as int);
                assert((y as int + 1) * BIG_WH as int <= grid_h(*img) * BIG_WH as int);
                assert(grid_w(*img) * BIG_WH as int <= img.width as int);
                assert(grid_h(*img) * BIG_WH as int <= img.height as int);
            }
            let big_x = x * BIG_WH;
            let big_y = y * BIG_WH;
            let ghost c = x as int * bh as int + y as int;
            scan_one_cell(img, &mut schemas, &mut unzipped, big_x, big_y);
            proof {
                lemma_fundamental_div_mod_converse(c, bh as int, x as int, y as int);
                assert(sch_views(schemas@) == scan_upto(*img, c + 1).schemas);
                assert(cell_views(unzipped@) == scan_upto(*img, c + 1).unzipped);
            }
            y = y + 1;
        }
        proof {
            assert(x as int * bh as int + bh as int == (x as int + 1) * bh as int)
                by (nonlinear_arith);
        }
        x = x + 1;
    }
    (schemas, unzipped)
}

impl ZImage {
    /// Compresses the buffer: records a schema for every cell that some
    /// small region reproduces, and stores the samples of every other cell
    /// verbatim as residual dots, in scan order, `x` outer and `y` inner
    /// within a cell.
    pub fn zip(img: &Buffer) -> (r: ZImage)
        requires
            img.wf(),
        ensures
            r@ == zip_spec(*img),
            r@.wf(),
            forall|i: int|
                0 <= i < r@.schemas.len() ==> scan_schema_ok(
                    #[trigger] r@.schemas[i],
                    img.width as int,
                    img.height as int,
                ),
            r@.pixels.len() == (BIG_WH * BIG_WH) * zip_scan(*img).unzipped.len(),
    {
        let (schemas, unzipped) = zip_rec(img);
        let mut pixels: Vec<Dot> = Vec::new();
        let ghost cells = cell_views(unzipped@);
        let n_cells = unzipped.len();
        assert(dot_views(pixels@) =~= residuals_upto(*img, cells, 0));
        let mut ci: usize = 0;
        while ci < n_cells
            invariant
                img.wf(),
                n_cells == unzipped@.len(),
                ci <= n_cells,
                cells == cell_views(unzipped@),
                cells_ok(cells, img.width as int, img.height as int),
                dot_views(pixels@) == residuals_upto(*img, cells, ci as int),
                forall|t: int|
                    0 <= t < pixels@.len() ==> {
                        &&& (#[trigger] pixels@[t]).x < img.width
                        &&& pixels@[t].y < img.height
                        &&& pixels@[t].px.kind() == img.kind
                    },
            decreases n_cells - ci,
        {
            let (rx, ry) = unzipped[ci];
            let ghost grx = rx as int;
            let ghost gry = ry as int;
            assert((cells[ci as int].0, cells[ci as int].1) == (grx, gry));
            let ghost base = residuals_upto(*img, cells, ci as int);
            let mut ox: u32 = 0;
            while ox < BIG_WH
                invariant
                    img.wf(),
                    ox <= BIG_WH,
                    grx == rx as int,
                    gry == ry as int,
                    rx + BIG_WH <= img.width,
                    ry + BIG_WH <= img.height,
                    base == residuals_upto(*img, cells, ci as int),
                    dot_views(pixels@) == base + cell_dots(*img, grx, gry).take(
                        ox as int * BIG_WH as int,
                    ),
                    forall|t: int|
                        0 <= t < pixels@.len() ==> {
                            &&& (#[trigger] pixels@[t]).x < img.width
                            &&& pixels@[t].y < img.height
                            &&& pixels@[t].px.kind() == img.kind
                        },
                decreases BIG_WH - ox,
            {
                let mut oy: u32 = 0;
                while oy < BIG_WH
                    invariant
                        img.wf(),
                        ox < BIG_WH,
                        oy <= BIG_WH,
                        grx == rx as int,
                        gry == ry as int,
                        rx + BIG_WH <= img.width,
                        ry + BIG_WH <= img.height,
                        base == residuals_upto(*img, cells, ci as int),
                        dot_views(pixels@) == base + cell_dots(*img, grx, gry).take(
                            ox as int * BIG_WH as int + oy as int,
                        ),
                        forall|t: int|
                            0 <= t < pixels@.len() ==> {
                                &&& (#[trigger] pixels@[t]).x < img.width
                                &&& pixels@[t].y < img.height
                                &&& pixels@[t].px.kind() == img.kind
                            },
                    decreases BIG_WH - oy,
                {
                    let ghost t = ox as int * BIG_WH as int + oy as int;
                    proof {
                        lemma_fundamental_div_mod_converse(
                            t,
                            BIG_WH as int,
                            ox as int,
                            oy as int,
                        );
                    }
                    let px = img.get(rx + ox, ry + oy);
                    let ghost pv = pixels@;
                    let d = Dot { x: rx + ox, y: ry + oy, px };
                    pixels.push(d);
                    proof {
                        let cd = cell_dots(*img, grx, gry);
                        assert(cd.len() == 36);
                        assert(0 <= t && t + 1 <= 36);
                        assert(cd[t] == d@);
                        assert(pixels@ == pv.push(d));
                        assert(dot_views(pv) == base + cd.take(t));
                        assert(dot_views(pv).len() == pv.len());
                        assert(cd.take(t).len() == t);
                        assert(pv.len() == base.len() + t);
                        assert(dot_views(pixels@).len() == (base + cd.take(t + 1)).len());
                        assert forall|q: int| 0 <= q < dot_views(pixels@).len() implies
                            dot_views(pixels@)[q] == (base + cd.take(t + 1))[q] by {
                            if q < pv.len() {
                                assert(dot_views(pixels@)[q] == pv[q]@);
                                assert(dot_views(pv)[q] == pv[q]@);
                                assert(dot_views(pv)[q] == (base + cd.take(t))[q]);
                                if q < base.len() {
                                    assert((base + cd.take(t))[q] == base[q]);
                                    assert((base + cd.take(t + 1))[q] == base[q]);
                                } else {
                                    assert((base + cd.take(t))[q] == cd.take(t)[q - base.len()]);
                                    assert((base + cd.take(t + 1))[q] == cd.take(t + 1)[q
                                        - base.len()]);
                                    assert(cd.take(t)[q - base.len()] == cd[q - base.len()]);
                                    assert(cd.take(t + 1)[q - base.len()] == cd[q - base.len()]);
                                }
                            } else {
                                assert(dot_views(pixels@)[q] == d@);
                                assert((base + cd.take(t + 1))[q] == cd.take(t + 1)[t]);
                                assert(cd.take(t + 1)[t] == cd[t]);
                            }
                        }
                        assert(dot_views(pixels@) =~= base + cd.take(t + 1));
                    }
                    oy = oy + 1;
                }
                ox = ox + 1;
            }
            proof {
                assert(cell_dots(*img, grx, gry).take(BIG_WH as int * BIG_WH as int)
                    =~= cell_dots(*img, grx, gry));
                assert(cells[ci as int].0 == grx);
                assert(cells[ci as int].1 == gry);
                assert(dot_views(pixels@) == base + cell_dots(*img, grx, gry));
                assert(residuals_upto(*img, cells, ci as int + 1) == residuals_upto(
                    *img,
                    cells,
                    ci as int,
                ) + cell_dots(*img, cells[ci as int].0, cells[ci as int].1));
                assert(dot_views(pixels@) == residuals_upto(*img, cells, ci as int + 1));
            }
            ci = ci + 1;
        }
        let z = ZImage {
            width: img.width,
            height: img.height,
            kind: img.kind,
            schemas,
            pixels,
        };
        proof {
            assert(cells.len() == zip_scan(*img).unzipped.len());
            assert(z@ =~~= zip_spec(*img));
            lemma_residuals_len(*img, cells, cells.len() as int);
            assert forall|t: int| 0 <= t < z@.pixels.len() implies {
                &&& 0 <= (#[trigger] z@.pixels[t]).x < z@.width
                &&& 0 <= z@.pixels[t].y < z@.height
                &&& z@.pixels[t].px.kind() == z@.kind
                &&& u32_ok(z@.pixels[t].x)
                &&& u32_ok(z@.pixels[t].y)
            } by {
                assert(z@.pixels[t] == z.pixels@[t]@);
            }
        }
        z
    }
}

/// One sample written into the raster, as reconstruction does it.
pub open spec fn wr_px(data: Seq<Px>, width: int, x: int, y: int, v: Px) -> Seq<Px> {
    data.update(pidx(width, x, y), v)
}

/// Writes `v` at offset `(ox, oy)` of every big region from index `j` on.
pub open spec fn wr_bigs_from(
    data: Seq<Px>,
    width: int,
    bigs: Seq<(int, int)>,
    ox: int,
    oy: int,
    v: Px,
    j: int,
) -> Seq<Px>
    decreases bigs.len() - j,
{
    if j < 0 || j >= bigs.len() {
        data
    } else {
        wr_bigs_from(
            wr_px(data, width, bigs[j].0 + ox, bigs[j].1 + oy, v),
            width,
            bigs,
            ox,
            oy,
            v,
            j + 1,
        )
    }
}

/// Writes `v` through column offset `ox` and row offsets `oybase + dy` for
/// `dy` up to `d`, big regions innermost.
pub open spec fn wr_dy_from(
    data: Seq<Px>,
    width: int,
    bigs: Seq<(int, int)>,
    ox: int,
    oybase: int,
    d: int,
    v: Px,
    dy: int,
) -> Seq<Px>
    decreases d - dy,
{
    if dy >= d {
        data
    } else {
        wr_dy_from(
            wr_bigs_from(data, width, bigs, ox, oybase + dy, v, 0),
            width,
            bigs,
            ox,
            oybase,
            d,
            v,
            dy + 1,
        )
    }
}

/// Writes `v` over the whole `d` x `d` block at offsets
/// `(oxbase + dx, oybase + dy)` of every big region.
pub open spec fn wr_dx_from(
    data: Seq<Px>,
    width: int,
    bigs: Seq<(int, int)>,
    oxbase: int,
    oybase: int,
    d: int,
    v: Px,
    dx: int,
) -> Seq<Px>
    decreases d - dx,
{
    if dx >= d {
        data
    } else {
        wr_dx_from(
            wr_dy_from(data, width, bigs, oxbase + dx, oybase, d, v, 0),
            width,
            bigs,
            oxbase,
            oybase,
            d,
            v,
            dx + 1,
        )
    }
}

/// One `(x, y)` step of a schema: read the current source sample, then copy
/// it over the corresponding block of every big region.
pub open spec fn apply_sch_pixel(data: Seq<Px>, width: int, s: SchemaV, x: int, y: int) -> Seq<
    Px,
> {
    let d = s.big_wh / s.small_wh;
    let v = data[pidx(width, s.small_x + x, s.small_y + y)];
    wr_dx_from(data, width, s.bigs, x * d, y * d, d, v, 0)
}

/// The schema's steps for one source column `x`, rows from `y` up.
pub open spec fn apply_sch_y_from(data: Seq<Px>, width: int, s: SchemaV, x: int, y: int) -> Seq<
    Px,
>
    decreases s.small_wh - y,
{
    if y >= s.small_wh {
        data
    } else {
        apply_sch_y_from(apply_sch_pixel(data, width, s, x, y), width, s, x, y + 1)
    }
}

/// The schema's steps for source columns from `x` up, `x` outer, `y` inner.
pub open spec fn apply_sch_x_from(data: Seq<Px>, width: int, s: SchemaV, x: int) -> Seq<Px>
    decreases s.small_wh - x,
{
    if x >= s.small_wh {
        data
    } else {
        apply_sch_x_from(apply_sch_y_from(data, width, s, x, 0), width, s, x + 1)
    }
}

pub open spec fn apply_schema(data: Seq<Px>, width: int, s: SchemaV) -> Seq<Px> {
    apply_sch_x_from(data, width, s, 0)
}

/// Applies `schemas[i-1]`, then `schemas[i-2]`, and so on down to
/// `schemas[0]`: the reverse of storage order.
pub open spec fn apply_schemas_down(
    data: Seq<Px>,
    width: int,
    schemas: Seq<SchemaV>,
    i: int,
) -> Seq<Px>
    decreases i,
{
    if i <= 0 {
        data
    } else {
        apply_schemas_down(apply_schema(data, width, schemas[i - 1]), width, schemas, i - 1)
    }
}

/// Writes the residual dots from index `i` on, in storage order.
pub open spec fn apply_dots_from(data: Seq<Px>, width: int, dots: Seq<DotV>, i: int) -> Seq<Px>
    decreases dots.len() - i,
{
    if i < 0 || i >= dots.len() {
        data
    } else {
        apply_dots_from(wr_px(data, width, dots[i].x, dots[i].y, dots[i].px), width, dots, i + 1)
    }
}

/// The raster that reconstruction produces: all channels zero, then the
/// residual dots, then the schemas in reverse order of storage.
pub open spec fn unzip_spec(z: ZImageV) -> Seq<Px> {
    let zero = Seq::new((z.width * z.height) as nat, |i: int| Px::spec_zero(z.kind));
    apply_schemas_down(
        apply_dots_from(zero, z.width, z.pixels, 0),
        z.width,
        z.schemas,
        z.schemas.len() as int,
    )
}

/// Reconstruction is a pure function of the compressed value: equal
/// compressed images reconstruct to equal rasters.
pub proof fn lemma_unzip_deterministic(z1: ZImageV, z2: ZImageV)
    requires
        z1 == z2,
    ensures
        unzip_spec(z1) == unzip_spec(z2),
{
}

/// Materializes one schema into the raster, exactly as `apply_schema`
/// describes.
fn apply_schema_exec(img: &mut Buffer, sch: &Schema)
    requires
        old(img).wf(),
        schema_wf(sch@, old(img).width as int, old(img).height as int),
    ensures
        final(img).wf(),
        final(img).width == old(img).width,
        final(img).height == old(img).height,
        final(img).kind == old(img).kind,
        final(img).data@ == apply_schema(old(img).data@, old(img).width as int, sch@),
{
    let swh = sch.small_wh;
    let bwh = sch.big_wh;
    let d = bwh / swh;
    let sx = sch.small_x;
    let sy = sch.small_y;
    let nbigs = sch.bigs.len();
    let ghost gs = sch@;
    let ghost w = img.width as int;
    let ghost h = img.height as int;
    let ghost k0 = img.kind;
    let ghost b0 = img.data@;
    proof {
        lemma_fundamental_div_mod(bwh as int, swh as int);
        assert(swh as int * (bwh as int / swh as int) == bwh as int);
        assert(gs.bigs.len() == nbigs);
    }
    let mut x: u32 = 0;
    while x < swh
        invariant
            img.wf(),
            img.width == w,
            img.height == h,
            img.kind == k0,
            gs == sch@,
            schema_wf(gs, w, h),
            swh == gs.small_wh,
            bwh == gs.big_wh,
            sx == gs.small_x,
            sy == gs.small_y,
            nbigs == gs.bigs.len(),
            d == bwh as int / swh as int,
            swh as int * d as int == bwh as int,
            x <= swh,
            apply_sch_x_from(img.data@, w, gs, x as int) == apply_sch_x_from(b0, w, gs, 0),
        decreases swh - x,
    {
        let ghost b1 = img.data@;
        let mut y: u32 = 0;
        while y < swh
            invariant
                img.wf(),
                img.width == w,
                img.height == h,
                img.kind == k0,
                gs == sch@,
                schema_wf(gs, w, h),
                swh == gs.small_wh,
                bwh == gs.big_wh,
                sx == gs.small_x,
                sy == gs.small_y,
                nbigs == gs.bigs.len(),
                d == bwh as int / swh as int,
                swh as int * d as int == bwh as int,
                x < swh,
                y <= swh,
                apply_sch_y_from(img.data@, w, gs, x as int, y as int) == apply_sch_y_from(
                    b1,
                    w,
                    gs,
                    x as int,
                    0,
                ),
            decreases swh - y,
        {
            proof {
                assert(x as int * d as int + d as int <= swh as int * d as int)
                    by (nonlinear_arith)
                    requires
                        x as int + 1 <= swh as int,
                        0 <= d as int,
                ;
                assert(y as int * d as int + d as int <= swh as int * d as int)
                    by (nonlinear_arith)
                    requires
                        y as int + 1 <= swh as int,
                        0 <= d as int,
                ;
            }
            let val = img.get(sx + x, sy + y);
            let xd = x * d;
            let yd = y * d;
            let ghost b2 = img.data@;
            let mut dx: u32 = 0;
            while dx < d
                invariant
                    img.wf(),
                    img.width == w,
                    img.height == h,
                    img.kind == k0,
                    gs == sch@,
                    schema_wf(gs, w, h),
                    nbigs == gs.bigs.len(),
                    val.kind() == k0,
                    dx <= d,
                    xd == x as int * d as int,
                    yd == y as int * d as int,
                    xd + d <= bwh,
                    yd + d <= bwh,
                    bwh == gs.big_wh,
                    wr_dx_from(img.data@, w, gs.bigs, xd as int, yd as int, d as int, val, dx as int)
                        == wr_dx_from(b2, w, gs.bigs, xd as int, yd as int, d as int, val, 0),
                decreases d - dx,
            {
                let ghost b3 = img.data@;
                let mut dy: u32 = 0;
                while dy < d
                    invariant
                        img.wf(),
                        img.width == w,
                        img.height == h,
                        img.kind == k0,
                        gs == sch@,
                        schema_wf(gs, w, h),
                        nbigs == gs.bigs.len(),
                        val.kind() == k0,
                        dx < d,
                        dy <= d,
                        xd + d <= bwh,
                        yd + d <= bwh,
                        bwh == gs.big_wh,
                        wr_dy_from(
                            img.data@,
                            w,
                            gs.bigs,
                            xd as int + dx as int,
                            yd as int,
                            d as int,
                            val,
                            dy as int,
                        ) == wr_dy_from(
                            b3,
                            w,
                            gs.bigs,
                            xd as int + dx as int,
                            yd as int,
                            d as int,
                            val,
                            0,
                        ),
                    decreases d - dy,
                {
                    let ghost b4 = img.data@;
                    let mut j: usize = 0;
                    while j < nbigs
                        invariant
                            img.wf(),
                            img.width == w,
                            img.height == h,
                            img.kind == k0,
                            gs == sch@,
                            schema_wf(gs, w, h),
                            nbigs == gs.bigs.len(),
                            nbigs == sch.bigs@.len(),
                            val.kind() == k0,
                            dx < d,
                            dy < d,
                            xd + d <= bwh,
                            yd + d <= bwh,
                            bwh == gs.big_wh,
                            j <= nbigs,
                            wr_bigs_from(
                                img.data@,
                                w,
                                gs.bigs,
                                xd as int + dx as int,
                                yd as int + dy as int,
                                val,
                                j as int,
                            ) == wr_bigs_from(
                                b4,
                                w,
                                gs.bigs,
                                xd as int + dx as int,
                                yd as int + dy as int,
                                val,
                                0,
                            ),
                        decreases nbigs - j,
                    {
                        let (bx, by) = sch.bigs[j];
                        proof {
                            assert(gs.bigs[j as int] == (bx as int, by as int));
                        }
                        img.set(bx + (xd + dx), by + (yd + dy), val);
                        j = j + 1;
                    }
                    dy = dy + 1;
                }
                dx = dx + 1;
            }
            proof {
                assert(b2[pidx(w, gs.small_x + x as int, gs.small_y + y as int)] == val);
                assert(apply_sch_pixel(b2, w, gs, x as int, y as int) == img.data@);
            }
            y = y + 1;
        }
        x = x + 1;
    }
}

impl ZImage {
    /// Reconstructs the raster: a zeroed buffer, then the residual dots,
    /// then the schemas in reverse order of storage, so that later schemas
    /// supply the sources of earlier ones.
    pub fn unzip(&self) -> (r: Buffer)
        requires
            self@.wf(),
            self.width * self.height <= usize::MAX,
        ensures
            r.wf(),
            r.width == self.width,
            r.height == self.height,
            r.kind == self.kind,
            r.data@ == unzip_spec(self@),
    {
        let mut img = Buffer::new(self.width, self.height, self.kind);
        let ghost z = self@;
        proof {
            assert(img.data@ =~= Seq::new((z.width * z.height) as nat, |i: int| Px::spec_zero(z.kind)));
        }
        let ghost d0 = img.data@;
        let npix = self.pixels.len();
        let mut i: usize = 0;
        while i < npix
            invariant
                img.wf(),
                img.width == self.width,
                img.height == self.height,
                img.kind == self.kind,
                z == self@,
                z.wf(),
                npix == self.pixels@.len(),
                i <= npix,
                apply_dots_from(img.data@, z.width, z.pixels, i as int) == apply_dots_from(
                    d0,
                    z.width,
                    z.pixels,
                    0,
                ),
            decreases npix - i,
        {
            let dot = &self.pixels[i];
            proof {
                assert(z.pixels[i as int] == dot@);
            }
            img.set(dot.x, dot.y, dot.px);
            i = i + 1;
        }
        let ghost d1 = img.data@;
        let mut si: usize = self.schemas.len();
        while si > 0
            invariant
                img.wf(),
                img.width == self.width,
                img.height == self.height,
                img.kind == self.kind,
                z == self@,
                z.wf(),
                si <= self.schemas@.len(),
                apply_schemas_down(img.data@, z.width, z.schemas, si as int)
                    == apply_schemas_down(d1, z.width, z.schemas, z.schemas.len() as int),
            decreases si,
        {
            si = si - 1;
            let sch = &self.schemas[si];
            proof {
                assert(z.schemas[si as int] == sch@);
                assert(schema_wf(sch@, img.width as int, img.height as int));
            }
            apply_schema_exec(&mut img, sch);
        }
        img
    }
}

impl ZImage {
    /// Tests the data-model invariants and the container's counter limits:
    /// reconstruction requires the former, serialization the latter. A
    /// compressed image read from untrusted bytes must pass this check
    /// before it is reconstructed.
    pub fn check(&self) -> (r: bool)
        ensures
            r == (self@.wf() && self@.counts_ok()),
    {
        let w = self.width;
        let h = self.height;
        proof {
            assert forall|t: int| 0 <= t < self@.schemas.len() implies schema_ranges(
                #[trigger] self@.schemas[t],
            ) by {
                let s = self.schemas@[t];
                assert(self@.schemas[t] == s@);
                assert forall|jj: int| 0 <= jj < s@.bigs.len() implies u32_ok(
                    (#[trigger] s@.bigs[jj]).0,
                ) && u32_ok(s@.bigs[jj].1) by {
                    assert(s@.bigs[jj] == (s.bigs@[jj].0 as int, s.bigs@[jj].1 as int));
                }
            }
            assert forall|t: int| 0 <= t < self@.pixels.len() implies u32_ok(
                (#[trigger] self@.pixels[t]).x,
            ) && u32_ok(self@.pixels[t].y) by {
                assert(self@.pixels[t] == self.pixels@[t]@);
            }
        }
        if self.schemas.len() > u32::MAX as usize {
            return false;
        }
        if self.pixels.len() > u32::MAX as usize {
            return false;
        }
        let n = self.schemas.len();
        let mut i: usize = 0;
        while i < n
            invariant
                w == self.width,
                h == self.height,
                n == self.schemas@.len(),
                i <= n,
                forall|t: int|
                    0 <= t < i ==> schema_wf(#[trigger] self@.schemas[t], w as int, h as int)
                        && u32_ok(self@.schemas[t].bigs.len() as int),
            decreases n - i,
        {
            let s = &self.schemas[i];
            proof {
                assert(self@.schemas[i as int] == s@);
            }
            if s.small_wh == 0 {
                return false;
            }
            if s.big_wh % s.small_wh != 0 {
                return false;
            }
            if !(s.small_x <= w && s.small_wh <= w - s.small_x) {
                return false;
            }
            if !(s.small_y <= h && s.small_wh <= h - s.small_y) {
                return false;
            }
            if s.bigs.len() == 0 {
                return false;
            }
            if s.bigs.len() > u32::MAX as usize {
                return false;
            }
            let m = s.bigs.len();
            let mut j: usize = 0;
            while j < m
                invariant
                    w == self.width,
                    h == self.height,
                    m == s.bigs@.len(),
                    j <= m,
                    s@ == self@.schemas[i as int],
                    0 <= i < self@.schemas.len(),
                    forall|t: int|
                        0 <= t < j ==> {
                            &&& (#[trigger] s@.bigs[t]).0 + s@.big_wh <= w
                            &&& s@.bigs[t].1 + s@.big_wh <= h
                        },
                decreases m - j,
            {
                let (bx, by) = s.bigs[j];
                proof {
                    assert(s@.bigs[j as int] == (bx as int, by as int));
                }
                if !(bx <= w && s.big_wh <= w - bx) {
                    proof {
                        assert(!schema_wf(self@.schemas[i as int], w as int, h as int));
                    }
                    return false;
                }
                if !(by <= h && s.big_wh <= h - by) {
                    proof {
                        assert(!schema_wf(self@.schemas[i as int], w as int, h as int));
                    }
                    return false;
                }
                j = j + 1;
            }
            proof {
                assert(schema_wf(self@.schemas[i as int], w as int, h as int));
            }
            i = i + 1;
        }
        let np = self.pixels.len();
        let mut i: usize = 0;
        while i < np
            invariant
                w == self.width,
                h == self.height,
                np == self.pixels@.len(),
                i <= np,
                forall|t: int|
                    0 <= t < i ==> {
                        &&& (#[trigger] self@.pixels[t]).x < w
                        &&& self@.pixels[t].y < h
                        &&& self@.pixels[t].px.kind() == self@.kind
                    },
            decreases np - i,
        {
            let d = &self.pixels[i];
            proof {
                assert(self@.pixels[i as int] == d@);
            }
            if !(d.x < w && d.y < h) {
                return false;
            }
            if !(d.px.kind_of() == self.kind) {
                return false;
            }
            i = i + 1;
        }
        true
    }
}

impl ZImage {
    /// Names the first field in which the two compressed images differ, or
    /// nothing when they are equal in every field, schema entry and
    /// residual dot.
    pub fn where_neq(&self, other: &ZImage) -> (r: Option<String>)
        ensures
            r is None <==> self@ == other@,
    {
        if self.width != other.width {
            return Some("width".to_owned());
        }
        if self.height != other.height {
            return Some("height".to_owned());
        }
        if self.kind != other.kind {
            return Some("pixel kind".to_owned());
        }
        if self.schemas.len() != other.schemas.len() {
            proof {
                assert(self@.schemas.len() != other@.schemas.len());
            }
            return Some("sch len".to_owned());
        }
        if self.pixels.len() != other.pixels.len() {
            proof {
                assert(self@.pixels.len() != other@.pixels.len());
            }
            return Some("pix len".to_owned());
        }
        let n = self.schemas.len();
        let mut i: usize = 0;
        while i < n
            invariant
                n == self.schemas@.len(),
                n == other.schemas@.len(),
                i <= n,
                forall|t: int| 0 <= t < i ==> self@.schemas[t] == other@.schemas[t],
            decreases n - i,
        {
            let a = &self.schemas[i];
            let b = &other.schemas[i];
            proof {
                assert(self@.schemas[i as int] == a@);
                assert(other@.schemas[i as int] == b@);
            }
            if a.small_x != b.small_x {
                return Some("sch small x".to_owned());
            }
            if a.small_y != b.small_y {
                return Some("sch small y".to_owned());
            }
            if a.small_wh != b.small_wh {
                return Some("sch small wh".to_owned());
            }
            if a.big_wh != b.big_wh {
                return Some("sch big wh".to_owned());
            }
            if a.bigs.len() != b.bigs.len() {
                proof {
                    assert(a@.bigs.len() != b@.bigs.len());
                }
                return Some("sch bigs len".to_owned());
            }
            let m = a.bigs.len();
            let mut j: usize = 0;
            while j < m
                invariant
                    m == a.bigs@.len(),
                    m == b.bigs@.len(),
                    j <= m,
                    a@ == self@.schemas[i as int],
                    b@ == other@.schemas[i as int],
                    forall|t: int| 0 <= t < j ==> a.bigs@[t] == b.bigs@[t],
                decreases m - j,
            {
                let (ax, ay) = a.bigs[j];
                let (bx, by) = b.bigs[j];
                if ax != bx || ay != by {
                    proof {
                        assert(a@.bigs[j as int] == (ax as int, ay as int));
                        assert(b@.bigs[j as int] == (bx as int, by as int));
                        assert(a@.bigs[j as int] != b@.bigs[j as int]);
                    }
                    return Some("sch bigs entry".to_owned());
                }
                j = j + 1;
            }
            proof {
                assert(a@.bigs =~= b@.bigs);
                assert(a@ =~= b@);
            }
            i = i + 1;
        }
        let np = self.pixels.len();
        let mut i: usize = 0;
        while i < np
            invariant
                np == self.pixels@.len(),
                np == other.pixels@.len(),
                i <= np,
                forall|t: int| 0 <= t < i ==> self@.pixels[t] == other@.pixels[t],
            decreases np - i,
        {
            let a = &self.pixels[i];
            let b = &other.pixels[i];
            proof {
                assert(self@.pixels[i as int] == a@);
                assert(other@.pixels[i as int] == b@);
            }
            if a.x != b.x {
                return Some("pix x".to_owned());
            }
            if a.y != b.y {
                return Some("pix y".to_owned());
            }
            if !(a.px == b.px) {
                return Some("pix val".to_owned());
            }
            proof {
                assert(a@ =~= b@);
            }
            i = i + 1;
        }
        proof {
            assert(self@.schemas =~= other@.schemas);
            assert(self@.pixels =~= other@.pixels);
            assert(self@ =~= other@);
        }
        None
    }
}

/// The raster index a residual dot writes to.
spec fn dot_target(width: int, d: DotV) -> int {
    pidx(width, d.x, d.y)
}

/// Some dot at or after index `i` writes to raster index `q`.
spec fn targeted(dots: Seq<DotV>, i: int, width: int, q: int) -> bool {
    exists|t: int| i <= t < dots.len() && #[trigger] dot_target(width, dots[t]) == q
}

/// Raster indices determine coordinates: two in-range positions with the
/// same linear index are the same position.
proof fn lemma_pidx_inj(width: int, x1: int, y1: int, x2: int, y2: int)
    requires
        0 <= x1 < width,
        0 <= x2 < width,
        0 <= y1,
        0 <= y2,
        pidx(width, x1, y1) == pidx(width, x2, y2),
    ensures
        x1 == x2,
        y1 == y2,
{
    let q = pidx(width, x1, y1);
    lemma_fundamental_div_mod_converse(q, width, y1, x1);
    lemma_fundamental_div_mod_converse(q, width, y2, x2);
}

/// Writing dots with pairwise distinct in-range targets puts each dot's
/// sample at its target and leaves every other index unchanged.
proof fn lemma_apply_dots_writes(data: Seq<Px>, width: int, dots: Seq<DotV>, i: int)
    requires
        0 <= i,
        forall|t: int|
            i <= t < dots.len() ==> 0 <= #[trigger] dot_target(width, dots[t]) < data.len(),
        forall|t1: int, t2: int|
            i <= t1 < t2 < dots.len() ==> dot_target(width, dots[t1]) != dot_target(
                width,
                dots[t2],
            ),
    ensures
        apply_dots_from(data, width, dots, i).len() == data.len(),
        forall|t: int|
            i <= t < dots.len() ==> apply_dots_from(data, width, dots, i)[#[trigger] dot_target(
                width,
                dots[t],
            )] == dots[t].px,
        forall|q: int|
            0 <= q < data.len() && !targeted(dots, i, width, q) ==> apply_dots_from(
                data,
                width,
                dots,
                i,
            )[q] == data[q],
    decreases dots.len() - i,
{
    if i < 0 || i >= dots.len() {
    } else {
        assert(0 <= dot_target(width, dots[i]) < data.len());
        let d2 = wr_px(data, width, dots[i].x, dots[i].y, dots[i].px);
        assert(d2.len() == data.len());
        lemma_apply_dots_writes(d2, width, dots, i + 1);
        let r = apply_dots_from(data, width, dots, i);
        assert(r == apply_dots_from(d2, width, dots, i + 1));
        let ti = dot_target(width, dots[i]);
        assert(!targeted(dots, i + 1, width, ti));
        assert(r[ti] == d2[ti]);
        assert(d2[ti] == dots[i].px);
        assert forall|t: int| i <= t < dots.len() implies r[#[trigger] dot_target(
            width,
            dots[t],
        )] == dots[t].px by {
            if t == i {
            } else {
                assert(r[dot_target(width, dots[t])] == dots[t].px);
            }
        }
        assert forall|q: int| 0 <= q < data.len() && !targeted(dots, i, width, q) implies r[q]
            == data[q] by {
            assert(dot_target(width, dots[i]) != q);
            assert(!targeted(dots, i + 1, width, q));
            assert(r[q] == d2[q]);
            assert(d2[q] == data[q]);
        }
    }
}

/// Within the first `n` cells' residuals, dot number `u` of cell number `c`
/// sits at position `c * 36 + u`.
proof fn lemma_residuals_index(b: Buffer, cells: Seq<(int, int)>, n: int, c: int, u: int)
    requires
        0 <= c < n,
        0 <= u < 36,
    ensures
        residuals_upto(b, cells, n).len() == 36 * n,
        residuals_upto(b, cells, n)[c * 36 + u] == cell_dots(b, cells[c].0, cells[c].1)[u],
    decreases n,
{
    lemma_residuals_len(b, cells, n);
    lemma_residuals_len(b, cells, n - 1);
    if c == n - 1 {
        assert(residuals_upto(b, cells, n)[c * 36 + u] == cell_dots(
            b,
            cells[c].0,
            cells[c].1,
        )[c * 36 + u - 36 * (n - 1)]);
    } else {
        lemma_residuals_index(b, cells, n - 1, c, u);
        assert(c * 36 + u < 36 * (n - 1)) by (nonlinear_arith)
            requires
                0 <= c < n - 1,
                0 <= u < 36,
        ;
        assert(residuals_upto(b, cells, n)[c * 36 + u] == residuals_upto(b, cells, n - 1)[c * 36
            + u]);
    }
}

/// A found schema index lies within the list.
proof fn lemma_find_sch_range(ss: Seq<SchemaV>, cx: int, cy: int, i: int)
    requires
        0 <= i,
        find_sch(ss, cx, cy, i) is Some,
    ensures
        i <= find_sch(ss, cx, cy, i)->Some_0 < ss.len(),
    decreases ss.len() - i,
{
    if i < ss.len() && !(ss[i].small_x == cx && ss[i].small_y == cy) {
        lemma_find_sch_range(ss, cx, cy, i + 1);
    }
}

/// When the whole scan records no schema, every cell of the grid is
/// unzipped, in scan order.
proof fn lemma_scan_all_unzipped(b: Buffer, c: int)
    requires
        0 <= c,
        scan_upto(b, c).schemas.len() == 0,
    ensures
        scan_upto(b, c).unzipped.len() == c,
        forall|t: int|
            0 <= t < c ==> #[trigger] scan_upto(b, c).unzipped[t] == (
                (t / grid_h(b)) * BIG_WH as int,
                (t % grid_h(b)) * BIG_WH as int,
            ),
    decreases c,
{
    if c > 0 {
        let st = scan_upto(b, c - 1);
        let bx = ((c - 1) / grid_h(b)) * BIG_WH as int;
        let by = ((c - 1) % grid_h(b)) * BIG_WH as int;
        let st2 = scan_cell(b, st, bx, by);
        assert(st2 == scan_upto(b, c));
        if !prune_hit(st.schemas, bx, by) && first_cand(b, bx, by, 0) is Some {
            let (cx, cy) = first_cand(b, bx, by, 0)->Some_0;
            assert(st2.schemas == add_big(st.schemas, cx, cy, bx, by));
            match find_sch(st.schemas, cx, cy, 0) {
                Some(fi) => {
                    lemma_find_sch_range(st.schemas, cx, cy, 0);
                    assert(0 <= fi < st.schemas.len());
                    assert(st2.schemas.len() == st.schemas.len());
                    assert(false);
                },
                None => {
                    assert(st2.schemas.len() == st.schemas.len() + 1);
                    assert(false);
                },
            }
        }
        assert(st2.schemas == st.schemas);
        assert(st2.unzipped == st.unzipped.push((bx, by)));
        lemma_scan_all_unzipped(b, c - 1);
    }
}

/// Trivial fidelity: when compression records no schema, reconstruction of
/// the compressed image restores every sample inside the aligned cell grid
/// exactly, and leaves every sample outside the grid at channel zero.
pub proof fn lemma_trivial_fidelity(b: Buffer)
    requires
        b.wf(),
        zip_scan(b).schemas.len() == 0,
    ensures
        unzip_spec(zip_spec(b)).len() == b.width * b.height,
        forall|x: int, y: int|
            0 <= x < grid_w(b) * BIG_WH as int && 0 <= y < grid_h(b) * BIG_WH as int
                ==> unzip_spec(zip_spec(b))[pidx(b.width as int, x, y)] == b.data@[pidx(
                b.width as int,
                x,
                y,
            )],
        forall|x: int, y: int|
            0 <= x < b.width && 0 <= y < b.height && (x >= grid_w(b) * BIG_WH as int || y
                >= grid_h(b) * BIG_WH as int) ==> unzip_spec(zip_spec(b))[pidx(
                b.width as int,
                x,
                y,
            )] == Px::spec_zero(b.kind),
{
    let w = b.width as int;
    let h = b.height as int;
    let bw = grid_w(b);
    let bh = grid_h(b);
    let n = bw * bh;
    let z = zip_spec(b);
    let cells = zip_scan(b).unzipped;
    let dots = z.pixels;
    let zero = Seq::new((z.width * z.height) as nat, |i: int| Px::spec_zero(z.kind));
    assert(n >= 0) by (nonlinear_arith)
        requires
            bw >= 0,
            bh >= 0,
            n == bw * bh,
    ;
    lemma_scan_all_unzipped(b, n);
    lemma_residuals_len(b, cells, n);
    assert(dots == residuals_upto(b, cells, n));
    assert(unzip_spec(z) == apply_dots_from(zero, w, dots, 0));
    lemma_fundamental_div_mod(w, BIG_WH as int);
    lemma_fundamental_div_mod(h, BIG_WH as int);
    assert(bw * BIG_WH as int <= w);
    assert(bh * BIG_WH as int <= h);

    // Each dot lies inside the aligned grid, and its sample is the source
    // raster's sample at its own coordinates.
    assert forall|t: int| 0 <= t < dots.len() implies {
        &&& 0 <= dots[t].x < bw * BIG_WH as int
        &&& 0 <= dots[t].y < bh * BIG_WH as int
        &&& dots[t].px == b.data@[pidx(w, #[trigger] dots[t].x, dots[t].y)]
        &&& 0 <= dot_target(w, dots[t]) < zero.len()
    } by {
        let c = t / 36;
        let u = t % 36;
        assert(t == 36 * c + u && 0 <= u < 36 && 0 <= c < n) by {
            lemma_fundamental_div_mod(t, 36);
            assert(36 * c <= t < 36 * n);
            assert(c < n) by (nonlinear_arith)
                requires
                    36 * c < 36 * n,
            ;
            assert(0 <= c) by (nonlinear_arith)
                requires
                    0 <= 36 * c + u,
                    u < 36,
            ;
        }
        lemma_residuals_index(b, cells, n, c, u);
        assert(dots[t] == cell_dots(b, cells[c].0, cells[c].1)[u]);
        let gx = c / bh;
        let gy = c % bh;
        assert(cells[c] == (gx * BIG_WH as int, gy * BIG_WH as int));
        assert(0 <= gy < bh && 0 <= gx < bw) by {
            lemma_fundamental_div_mod(c, bh);
            assert(bh * gx <= c < bw * bh);
            assert(gx < bw) by (nonlinear_arith)
                requires
                    bh * gx < bw * bh,
                    bh > 0,
            ;
            assert(0 <= gx) by (nonlinear_arith)
                requires
                    0 <= bh * gx + gy,
                    gy < bh,
                    bh > 0,
            ;
        }
        let dxu = u / BIG_WH as int;
        let dyu = u % BIG_WH as int;
        assert(dots[t].x == gx * BIG_WH as int + dxu);
        assert(dots[t].y == gy * BIG_WH as int + dyu);
        assert(0 <= dxu < BIG_WH as int && 0 <= dyu < BIG_WH as int);
        assert(gx * BIG_WH as int + dxu < bw * BIG_WH as int) by (nonlinear_arith)
            requires
                gx + 1 <= bw,
                0 <= dxu < BIG_WH as int,
                0 < BIG_WH as int,
        ;
        assert(gy * BIG_WH as int + dyu < bh * BIG_WH as int) by (nonlinear_arith)
            requires
                gy + 1 <= bh,
                0 <= dyu < BIG_WH as int,
                0 < BIG_WH as int,
        ;
        assert(0 <= gx * BIG_WH as int) by (nonlinear_arith)
            requires
                0 <= gx,
                0 < BIG_WH as int,
        ;
        assert(0 <= gy * BIG_WH as int) by (nonlinear_arith)
            requires
                0 <= gy,
                0 < BIG_WH as int,
        ;
        lemma_pidx_in_range(w, h, dots[t].x, dots[t].y);
        assert(zero.len() == w * h);
    }

    // Distinct dots write distinct raster indices.
    assert forall|t1: int, t2: int| 0 <= t1 < t2 < dots.len() implies dot_target(w, dots[t1])
        != dot_target(w, dots[t2]) by {
        if dots[t1].x == dots[t2].x && dots[t1].y == dots[t2].y {
            let c1 = t1 / 36;
            let u1 = t1 % 36;
            let c2 = t2 / 36;
            let u2 = t2 % 36;
            lemma_fundamental_div_mod(t1, 36);
            lemma_fundamental_div_mod(t2, 36);
            assert(0 <= c1 && 0 <= c2 && c1 * 36 + u1 < n * 36 && c2 * 36 + u2 < n * 36)
                by (nonlinear_arith)
                requires
                    t1 == 36 * c1 + u1,
                    t2 == 36 * c2 + u2,
                    0 <= u1 < 36,
                    0 <= u2 < 36,
                    0 <= t1,
                    0 <= t2,
                    t1 < 36 * n,
                    t2 < 36 * n,
            ;
            assert(c1 < n && c2 < n) by (nonlinear_arith)
                requires
                    c1 * 36 < n * 36,
                    c2 * 36 < n * 36,
            ;
            lemma_residuals_index(b, cells, n, c1, u1);
            lemma_residuals_index(b, cells, n, c2, u2);
            let gx1 = c1 / bh;
            let gy1 = c1 % bh;
            let gx2 = c2 / bh;
            let gy2 = c2 % bh;
            lemma_fundamental_div_mod(c1, bh);
            lemma_fundamental_div_mod(c2, bh);
            assert(dots[t1].x == gx1 * BIG_WH as int + u1 / BIG_WH as int);
            assert(dots[t1].y == gy1 * BIG_WH as int + u1 % BIG_WH as int);
            assert(dots[t2].x == gx2 * BIG_WH as int + u2 / BIG_WH as int);
            assert(dots[t2].y == gy2 * BIG_WH as int + u2 % BIG_WH as int);
            // equal coordinates force equal grid cell and equal offset
            lemma_fundamental_div_mod_converse(
                dots[t1].x,
                BIG_WH as int,
                gx1,
                u1 / BIG_WH as int,
            );
            lemma_fundamental_div_mod_converse(
                dots[t2].x,
                BIG_WH as int,
                gx2,
                u2 / BIG_WH as int,
            );
            lemma_fundamental_div_mod_converse(
                dots[t1].y,
                BIG_WH as int,
                gy1,
                u1 % BIG_WH as int,
            );
            lemma_fundamental_div_mod_converse(
                dots[t2].y,
                BIG_WH as int,
                gy2,
                u2 % BIG_WH as int,
            );
            assert(gx1 == gx2 && gy1 == gy2 && u1 / BIG_WH as int == u2 / BIG_WH as int && u1
                % BIG_WH as int == u2 % BIG_WH as int);
            assert(c1 == c2) by (nonlinear_arith)
                requires
                    c1 == bh * gx1 + gy1,
                    c2 == bh * gx2 + gy2,
                    gx1 == gx2,
                    gy1 == gy2,
            ;
            assert(u1 == u2);
            assert(t1 == t2);
            assert(false);
        } else {
            assert(0 <= dots[t1].x < w && 0 <= dots[t2].x < w);
            if dot_target(w, dots[t1]) == dot_target(w, dots[t2]) {
                lemma_pidx_inj(w, dots[t1].x, dots[t1].y, dots[t2].x, dots[t2].y);
                assert(false);
            }
        }
    }

    lemma_apply_dots_writes(zero, w, dots, 0);
    let r = apply_dots_from(zero, w, dots, 0);

    assert forall|x: int, y: int|
        0 <= x < bw * BIG_WH as int && 0 <= y < bh * BIG_WH as int implies r[pidx(w, x, y)]
        == b.data@[pidx(w, x, y)] by {
        let gx = x / BIG_WH as int;
        let gy = y / BIG_WH as int;
        let dxu = x % BIG_WH as int;
        let dyu = y % BIG_WH as int;
        lemma_fundamental_div_mod(x, BIG_WH as int);
        lemma_fundamental_div_mod(y, BIG_WH as int);
        assert(0 <= gx && gx < bw) by (nonlinear_arith)
            requires
                x == BIG_WH as int * gx + dxu,
                0 <= dxu < BIG_WH as int,
                0 <= x,
                x < bw * BIG_WH as int,
        ;
        assert(0 <= gy && gy < bh) by (nonlinear_arith)
            requires
                y == BIG_WH as int * gy + dyu,
                0 <= dyu < BIG_WH as int,
                0 <= y,
                y < bh * BIG_WH as int,
        ;
        let c = gx * bh + gy;
        let u = dxu * BIG_WH as int + dyu;
        assert(0 <= c < n) by (nonlinear_arith)
            requires
                0 <= gx < bw,
                0 <= gy < bh,
                c == gx * bh + gy,
                n == bw * bh,
        ;
        assert(0 <= u < 36) by (nonlinear_arith)
            requires
                0 <= dxu < 6,
                0 <= dyu < 6,
                u == dxu * 6 + dyu,
        ;
        let t = c * 36 + u;
        assert(0 <= t < 36 * n) by (nonlinear_arith)
            requires
                0 <= c < n,
                0 <= u < 36,
                t == c * 36 + u,
        ;
        lemma_residuals_index(b, cells, n, c, u);
        lemma_fundamental_div_mod_converse(c, bh, gx, gy);
        assert(cells[c] == (gx * BIG_WH as int, gy * BIG_WH as int));
        lemma_fundamental_div_mod_converse(u, BIG_WH as int, dxu, dyu);
        assert(dots[t] == cell_dots(b, gx * BIG_WH as int, gy * BIG_WH as int)[u]);
        assert(dots[t].x == gx * BIG_WH as int + dxu);
        assert(dots[t].x == x);
        assert(dots[t].y == y);
        assert(dots[t].px == b.spec_get(x, y));
        assert(r[dot_target(w, dots[t])] == dots[t].px);
        assert(dot_target(w, dots[t]) == pidx(w, x, y));
    }

    assert forall|x: int, y: int|
        0 <= x < b.width && 0 <= y < b.height && (x >= bw * BIG_WH as int || y >= bh
            * BIG_WH as int) implies r[pidx(w, x, y)] == Px::spec_zero(b.kind) by {
        lemma_pidx_in_range(w, h, x, y);
        let q = pidx(w, x, y);
        assert(!targeted(dots, 0, w, q)) by {
            if targeted(dots, 0, w, q) {
                let t = choose|t: int|
                    0 <= t < dots.len() && #[trigger] dot_target(w, dots[t]) == q;
                assert(0 <= dots[t].x < w);
                lemma_pidx_inj(w, dots[t].x, dots[t].y, x, y);
                assert(false);
            }
        }
        assert(r[q] == zero[q]);
    }
}

} // verus!
