//! Synthetic assets: the stress asset's zone primitives, small valid assets for
//! end-to-end tests, and the negative fixtures, all generated by code so that
//! the result is bit-identical from run to run.
use vstd::prelude::*;
use crate::binarize::{line_mask, line_mask_spec, DEFAULT_LINE_THRESHOLD};
use crate::components::{label_components, is_labelling, lemma_distinct_below, dot_pixels, closed, has_nbr, lemma_nbr, nbr, Components, NONE};
use crate::dots::{dot_of, dots_layout, lemma_one_blob_per_dot};
use crate::migrate::{dot_painted, paint_dot, px, solid};
use crate::segment::all_active;
use crate::seeds::{coord_sum, dist2, blob_centroid, dist2_exec, read, reads_as, Seed};
use crate::seeds::{alpha, describes_blob, is_mode, lemma_uniform_counts, painted, zero_keys};
use crate::segment::px_rgb;
use crate::image::{display_p3_profile, synth_profile_spec, Compression, D65, P3_R, P3_G, P3_B};
use crate::code;

verus! {

pub const PALETTE: [[u8; 3]; 16] = [
    [64, 64, 64],
    [255, 0, 0],
    [0, 255, 0],
    [0, 0, 255],
    [255, 255, 0],
    [128, 255, 255],
    [0, 255, 255],
    [255, 128, 0],
    [128, 0, 255],
    [0, 255, 128],
    [255, 0, 128],
    [128, 255, 0],
    [0, 128, 255],
    [200, 0, 0],
    [0, 160, 0],
    [160, 160, 0],
];

/// `PERM[i] == (7 i + 3) mod 16`: a bijection of `0..16` with no fixed point, so a
/// seed's colour never equals the colour of its own index.
pub const PERM: [u8; 16] = [3, 10, 1, 8, 15, 6, 13, 4, 11, 2, 9, 0, 7, 14, 5, 12];

/// Index of the frame between zones.
pub const FRAME: u8 = 0;

/// `PERM` is `i ↦ (7 i + 3) mod 16`.
pub proof fn law_perm_formula()
    ensures
        forall|i: int| 0 <= i < 16 ==> PERM@[i] == (7 * i + 3) % 16,
{
    assert(PERM@[0] == 3 && PERM@[1] == 10 && PERM@[2] == 1 && PERM@[3] == 8);
    assert(PERM@[4] == 15 && PERM@[5] == 6 && PERM@[6] == 13 && PERM@[7] == 4);
    assert(PERM@[8] == 11 && PERM@[9] == 2 && PERM@[10] == 9 && PERM@[11] == 0);
    assert(PERM@[12] == 7 && PERM@[13] == 14 && PERM@[14] == 5 && PERM@[15] == 12);
}

/// `PERM` is a bijection of `0..16` without a fixed point.
pub proof fn law_perm_is_a_derangement()
    ensures
        forall|i: int| 0 <= i < 16 ==> PERM@[i] < 16 && PERM@[i] != i,
        forall|i: int, j: int| 0 <= i < j < 16 ==> PERM@[i] != PERM@[j],
{
    law_perm_formula();
    assert forall|i: int, j: int| 0 <= i < j < 16 implies PERM@[i] != PERM@[j] by {
        assert((7 * i + 3) % 16 != (7 * j + 3) % 16) by (nonlinear_arith)
            requires
                0 <= i < j < 16,
        ;
    }
}

/// A palette-index map; every zone primitive works on it.
pub struct Canvas {
    pub width: u32,
    pub height: u32,
    pub idx: Vec<u8>,
}

/// Pixel `(x, y)` of a `w`-wide canvas.
pub open spec fn at_spec(w: int, x: int, y: int) -> int {
    y * w + x
}

/// Pixel `i` of a `w`×`h` canvas lies in the rectangle `(x, y, rw, rh)`.
pub open spec fn in_rect(w: int, i: int, x: int, y: int, rw: int, rh: int) -> bool {
    x <= i % w < x + rw && y <= i / w < y + rh
}

/// `idx` with the rectangle `(x, y, rw, rh)`, clipped to the canvas, set to `color`.
pub open spec fn with_rect(idx: Seq<u8>, w: int, x: int, y: int, rw: int, rh: int, color: u8) -> Seq<u8> {
    Seq::new(idx.len(), |i: int| if in_rect(w, i, x, y, rw, rh) { color } else { idx[i] })
}

/// A rectangle to paint: `(x, y, w, h, color)`.
pub type Rect = (u32, u32, u32, u32, u8);

/// `idx` after painting `rects` in order.
pub open spec fn painted_rects(idx: Seq<u8>, w: int, rects: Seq<Rect>) -> Seq<u8>
    decreases rects.len(),
{
    if rects.len() == 0 {
        idx
    } else {
        let r = rects.last();
        with_rect(painted_rects(idx, w, rects.drop_last()), w, r.0 as int, r.1 as int, r.2 as int, r.3 as int, r.4)
    }
}

impl Canvas {
    /// The canvas is consistent: one index per pixel, pixel numbers fit in `u32`.
    pub open spec fn wf(&self) -> bool {
        &&& self.idx@.len() == self.width * self.height
        &&& self.width * self.height <= u32::MAX
    }

    /// A canvas filled with `FRAME`.
    pub fn new(width: u32, height: u32) -> (c: Canvas)
        requires
            width * height <= u32::MAX,
        ensures
            c.wf(),
            c.width == width,
            c.height == height,
            forall|i: int| 0 <= i < c.idx@.len() ==> c.idx@[i] == FRAME,
    {
        Canvas { width, height, idx: vec![FRAME; (width * height) as usize] }
    }

    fn at(&self, x: u32, y: u32) -> (i: usize)
        requires
            self.wf(),
            x < self.width,
            y < self.height,
        ensures
            i == at_spec(self.width as int, x as int, y as int),
            i < self.idx@.len(),
    {
        assert(y * self.width + x < self.width * self.height) by (nonlinear_arith)
            requires
                x < self.width,
                y < self.height,
        ;
        (y * self.width + x) as usize
    }

    /// The index at `(x, y)`.
    pub fn get(&self, x: u32, y: u32) -> (v: u8)
        requires
            self.wf(),
            x < self.width,
            y < self.height,
        ensures
            v == self.idx@[at_spec(self.width as int, x as int, y as int)],
    {
        self.idx[self.at(x, y)]
    }

    /// Sets `(x, y)` to `color`; a point outside the canvas is ignored.
    pub fn set(&mut self, x: u32, y: u32, color: u8)
        requires
            old(self).wf(),
        ensures
            final(self).wf(),
            final(self).width == old(self).width,
            final(self).height == old(self).height,
            final(self).idx@ == if x < old(self).width && y < old(self).height {
                old(self).idx@.update(at_spec(old(self).width as int, x as int, y as int), color)
            } else {
                old(self).idx@
            },
    {
        if x < self.width && y < self.height {
            let i = self.at(x, y);
            self.idx.set(i, color);
        }
    }

    /// Fills the rectangle `(x, y, w, h)`, clipped to the canvas.
    pub fn rect(&mut self, x: u32, y: u32, w: u32, h: u32, color: u8)
        requires
            old(self).wf(),
            x + w <= u32::MAX,
            y + h <= u32::MAX,
        ensures
            final(self).wf(),
            final(self).width == old(self).width,
            final(self).height == old(self).height,
            final(self).idx@ == with_rect(old(self).idx@, old(self).width as int, x as int, y as int, w as int, h as int, color),
    {
        let ghost w0 = self.width as int;
        let ghost h0 = self.height;
        let ghost idx0 = self.idx@;
        let y_end = if y + h < self.height { y + h } else { self.height };
        let x_end = if x + w < self.width { x + w } else { self.width };
        let mut yy = y;
        while yy < y_end
            invariant
                self.wf(),
                self.width == w0,
                self.height == h0,
                idx0.len() == self.idx@.len(),
                y <= yy,
                yy <= y_end || yy == y,
                y_end <= self.height,
                x_end <= self.width,
                y_end == if y + h < self.height { y + h } else { self.height as int },
                x_end == if x + w < self.width { x + w } else { self.width as int },
                forall|i: int| 0 <= i < idx0.len() ==> #[trigger] self.idx@[i] == (if in_rect(w0, i, x as int, y as int, w as int, (yy - y) as int) {
                    color
                } else {
                    idx0[i]
                }),
            decreases y_end - yy,
        {
            let mut xx = x;
            while xx < x_end
                invariant
                    self.wf(),
                    self.width == w0,
                    self.height == h0,
                    idx0.len() == self.idx@.len(),
                    y <= yy < y_end,
                    x <= xx,
                    xx <= x_end || xx == x,
                    y_end <= self.height,
                    x_end <= self.width,
                    x_end == if x + w < self.width { x + w } else { self.width as int },
                    forall|i: int| 0 <= i < idx0.len() ==> #[trigger] self.idx@[i] == (if in_rect(w0, i, x as int, y as int, w as int, (yy - y) as int)
                        || (i / w0 == yy && x <= i % w0 < xx) {
                        color
                    } else {
                        idx0[i]
                    }),
                decreases x_end - xx,
            {
                let i = self.at(xx, yy);
                self.idx.set(i, color);
                proof {
                    let ii = i as int;
                    assert(ii / w0 == yy && ii % w0 == xx) by (nonlinear_arith)
                        requires
                            ii == yy * w0 + xx,
                            0 <= xx < w0,
                            yy >= 0,
                    ;
                    assert forall|j: int| 0 <= j < idx0.len() && j != ii implies !(#[trigger] (j / w0) == yy && j % w0 == xx) by {
                        assert(j == (j / w0) * w0 + j % w0) by (nonlinear_arith)
                            requires
                                w0 > 0,
                        ;
                    }
                }
                xx += 1;
            }
            proof {
                assert forall|i: int| 0 <= i < idx0.len() implies (#[trigger] in_rect(w0, i, x as int, y as int, w as int, (yy - y) as int)
                    || (i / w0 == yy && x <= i % w0 < x_end)) == in_rect(w0, i, x as int, y as int, w as int, (yy + 1 - y) as int) by {
                    assert(0 <= i % w0 < w0) by (nonlinear_arith)
                        requires
                            w0 > 0,
                    ;
                }
            }
            yy += 1;
        }
        proof {
            assert forall|i: int| 0 <= i < idx0.len() implies #[trigger] in_rect(w0, i, x as int, y as int, w as int, (yy - y) as int)
                == in_rect(w0, i, x as int, y as int, w as int, h as int) by {
                if w0 > 0 {
                    assert(i / w0 < self.height) by (nonlinear_arith)
                        requires
                            0 <= i < w0 * self.height,
                            w0 > 0,
                    ;
                    assert(0 <= i % w0 < w0) by (nonlinear_arith)
                        requires
                            w0 > 0,
                    ;
                }
            }
            assert(self.idx@ =~= with_rect(idx0, w0, x as int, y as int, w as int, h as int, color));
        }
    }
}

/// `(x, y, w, h)` of a zone.
pub type Zone = (u32, u32, u32, u32);

/// A rectangle fits in `u32` coordinates.
pub open spec fn rect_fits(r: Rect) -> bool {
    r.0 + r.2 <= u32::MAX && r.1 + r.3 <= u32::MAX
}

/// Paints `rects` in order.
pub fn paint_rects(g: &mut Canvas, rects: &Vec<Rect>)
    requires
        old(g).wf(),
        forall|k: int| 0 <= k < rects@.len() ==> rect_fits(#[trigger] rects@[k]),
    ensures
        final(g).wf(),
        final(g).width == old(g).width,
        final(g).height == old(g).height,
        final(g).idx@ == painted_rects(old(g).idx@, old(g).width as int, rects@),
{
    let ghost idx0 = g.idx@;
    let mut k: usize = 0;
    while k < rects.len()
        invariant
            g.wf(),
            g.width == old(g).width,
            g.height == old(g).height,
            idx0 == old(g).idx@,
            k <= rects@.len(),
            forall|j: int| 0 <= j < rects@.len() ==> rect_fits(#[trigger] rects@[j]),
            g.idx@ == painted_rects(idx0, g.width as int, rects@.take(k as int)),
        decreases rects@.len() - k,
    {
        let r = rects[k];
        assert(rect_fits(rects@[k as int]));
        g.rect(r.0, r.1, r.2, r.3, r.4);
        assert(rects@.take(k as int + 1).drop_last() =~= rects@.take(k as int));
        k += 1;
    }
    assert(rects@.take(rects@.len() as int) =~= rects@);
}

/// Colour `k` of a zone with offset `base`: always in `1..=15`, never the frame.
pub open spec fn c_spec(base: u32, k: u32) -> u8 {
    (1 + (base + k) % 15) as u8
}

pub fn c(base: u32, k: u32) -> (v: u8)
    requires
        base + k <= u32::MAX,
    ensures
        v == c_spec(base, k),
        1 <= v <= 15,
{
    (1 + (base + k) % 15) as u8
}

/// Cell `k` (row-major) of a grid of `cell`-sized cells over zone `r`; the last
/// column and row take the remainder.
pub open spec fn grid_cell(r: Zone, cell: u32, k: int) -> (u32, u32, u32, u32, u32, u32) {
    let nx = r.2 / cell;
    let ny = r.3 / cell;
    let cx = k % (nx as int);
    let cy = k / (nx as int);
    let cw = if cx + 1 == nx { r.2 - cx * cell } else { cell as int };
    let ch = if cy + 1 == ny { r.3 - cy * cell } else { cell as int };
    ((r.0 + cx * cell) as u32, (r.1 + cy * cell) as u32, cw as u32, ch as u32, cx as u32, cy as u32)
}

/// The rectangles of a uniform grid coloured by `color(cx, cy)`.
pub open spec fn grid_rects(r: Zone, cell: u32, color: spec_fn(u32, u32) -> u8) -> Seq<Rect> {
    let nx = r.2 / cell;
    let ny = r.3 / cell;
    Seq::new((nx * ny) as nat, |k: int| {
        let g = grid_cell(r, cell, k);
        (g.0, g.1, g.2, g.3, color(g.4, g.5))
    })
}

/// Colours of `zone_grid`: 3 and 5 share no factor with 15, so any two 4-adjacent
/// cells differ.
pub open spec fn grid_color(base: u32) -> spec_fn(u32, u32) -> u8 {
    |cx: u32, cy: u32| (1 + (3 * cx + 5 * cy + base) % 15) as u8
}

/// Colours of `zone_reuse`: a two-colour checkerboard.
pub open spec fn reuse_color(base: u32) -> spec_fn(u32, u32) -> u8 {
    |cx: u32, cy: u32| c_spec(base, ((cx + cy) % 2) as u32)
}

/// A zone lies in `u32` coordinates.
pub open spec fn zone_fits(r: Zone) -> bool {
    r.0 + r.2 <= u32::MAX && r.1 + r.3 <= u32::MAX
}

/// Builds the cells of a grid; `checker` picks the two-colour checkerboard.
fn grid_cells(r: Zone, base: u32, cell: u32, checker: bool) -> (rects: Vec<Rect>)
    requires
        cell > 0,
        zone_fits(r),
        base + 3 * r.2 + 5 * r.3 <= u32::MAX,
    ensures
        rects@ == grid_rects(r, cell, if checker { reuse_color(base) } else { grid_color(base) }),
        forall|k: int| 0 <= k < rects@.len() ==> rect_fits(#[trigger] rects@[k]),
{
    let ghost color = if checker { reuse_color(base) } else { grid_color(base) };
    let ghost spec = grid_rects(r, cell, color);
    let (x0, y0, w, h) = r;
    let (nx, ny) = (w / cell, h / cell);
    assert(nx * cell <= w && ny * cell <= h) by (nonlinear_arith)
        requires
            nx == w / cell,
            ny == h / cell,
            cell > 0,
    ;
    let mut rects: Vec<Rect> = Vec::new();
    let mut cy: u32 = 0;
    while cy < ny
        invariant
            nx == w / cell,
            ny == h / cell,
            nx * cell <= w,
            ny * cell <= h,
            cell > 0,
            r == (x0, y0, w, h),
            zone_fits(r),
            base + 3 * w + 5 * h <= u32::MAX,
            spec == grid_rects(r, cell, color),
            color == (if checker { reuse_color(base) } else { grid_color(base) }),
            cy <= ny,
            rects@ == spec.take((cy * nx) as int),
            forall|k: int| 0 <= k < rects@.len() ==> rect_fits(#[trigger] rects@[k]),
        decreases ny - cy,
    {
        let mut cx: u32 = 0;
        while cx < nx
            invariant
                nx == w / cell,
                ny == h / cell,
                nx * cell <= w,
                ny * cell <= h,
                cell > 0,
                r == (x0, y0, w, h),
                zone_fits(r),
                base + 3 * w + 5 * h <= u32::MAX,
                spec == grid_rects(r, cell, color),
                color == (if checker { reuse_color(base) } else { grid_color(base) }),
                cy < ny,
                cx <= nx,
                rects@ == spec.take((cy * nx + cx) as int),
                forall|k: int| 0 <= k < rects@.len() ==> rect_fits(#[trigger] rects@[k]),
            decreases nx - cx,
        {
            assert(cx * cell + cell <= w && cy * cell + cell <= h && cy * nx + cx < nx * ny) by (nonlinear_arith)
                requires
                    cx < nx,
                    cy < ny,
                    nx * cell <= w,
                    ny * cell <= h,
            ;
            let cw = if cx + 1 == nx { w - cx * cell } else { cell };
            let ch = if cy + 1 == ny { h - cy * cell } else { cell };
            let color_v = if checker { c(base, (cx + cy) % 2) } else { (1 + (3 * cx + 5 * cy + base) % 15) as u8 };
            let rr: Rect = (x0 + cx * cell, y0 + cy * cell, cw, ch, color_v);
            proof {
                let k = (cy * nx + cx) as int;
                assert(k % (nx as int) == cx && k / (nx as int) == cy) by (nonlinear_arith)
                    requires
                        k == cy * nx + cx,
                        cx < nx,
                ;
                assert(spec[k] == rr);
                assert(spec.take(k + 1) =~= spec.take(k).push(rr));
            }
            rects.push(rr);
            cx += 1;
        }
        assert(cy * nx + nx == (cy + 1) * nx) by (nonlinear_arith);
        cy += 1;
    }
    proof {
        assert(spec.len() == ny * nx) by (nonlinear_arith)
            requires
                spec.len() == nx * ny,
        ;
        assert(spec.take((ny * nx) as int) =~= spec);
    }
    rects
}

/// A uniform grid of `cell`-sized cells over `r`; the remainder goes to the last
/// column and row, so no cell is smaller than `cell`.
pub fn zone_grid(g: &mut Canvas, r: Zone, base: u32, cell: u32)
    requires
        old(g).wf(),
        cell > 0,
        zone_fits(r),
        base + 3 * r.2 + 5 * r.3 <= u32::MAX,
    ensures
        final(g).wf(),
        final(g).width == old(g).width,
        final(g).height == old(g).height,
        final(g).idx@ == painted_rects(old(g).idx@, old(g).width as int, grid_rects(r, cell, grid_color(base))),
{
    let rects = grid_cells(r, base, cell, false);
    paint_rects(g, &rects);
}

/// A checkerboard of two colours with `cell`-sized cells: equal colours touch
/// only diagonally, so under 4-connectivity every cell is its own region.
pub fn zone_reuse(g: &mut Canvas, r: Zone, base: u32, cell: u32)
    requires
        old(g).wf(),
        cell > 0,
        zone_fits(r),
        base + 3 * r.2 + 5 * r.3 <= u32::MAX,
    ensures
        final(g).wf(),
        final(g).width == old(g).width,
        final(g).height == old(g).height,
        final(g).idx@ == painted_rects(old(g).idx@, old(g).width as int, grid_rects(r, cell, reuse_color(base))),
{
    let rects = grid_cells(r, base, cell, true);
    paint_rects(g, &rects);
}

/// Stripe `i` of `zone_stripes`: `thick` wide, the last one takes the remainder.
pub open spec fn stripe_rects(r: Zone, base: u32, thick: u32, vertical: bool) -> Seq<Rect> {
    let span = if vertical { r.2 } else { r.3 };
    let n = span / thick;
    Seq::new(n as nat, |i: int| {
        let off = i * thick;
        let len = if i + 1 == n { span - off } else { thick as int };
        if vertical {
            ((r.0 + off) as u32, r.1, len as u32, r.3, c_spec(base, i as u32))
        } else {
            (r.0, (r.1 + off) as u32, r.2, len as u32, c_spec(base, i as u32))
        }
    })
}

/// Parallel stripes `thick` wide across `r`, vertical or horizontal.
pub fn zone_stripes(g: &mut Canvas, r: Zone, base: u32, thick: u32, vertical: bool)
    requires
        old(g).wf(),
        thick > 0,
        zone_fits(r),
        base + r.2 + r.3 <= u32::MAX,
    ensures
        final(g).wf(),
        final(g).width == old(g).width,
        final(g).height == old(g).height,
        final(g).idx@ == painted_rects(old(g).idx@, old(g).width as int, stripe_rects(r, base, thick, vertical)),
{
    let ghost spec = stripe_rects(r, base, thick, vertical);
    let (x0, y0, w, h) = r;
    let span = if vertical { w } else { h };
    let n = span / thick;
    assert(n * thick <= span) by (nonlinear_arith)
        requires
            n == span / thick,
            thick > 0,
    ;
    let mut rects: Vec<Rect> = Vec::new();
    let mut i: u32 = 0;
    while i < n
        invariant
            r == (x0, y0, w, h),
            zone_fits(r),
            base + w + h <= u32::MAX,
            thick > 0,
            span == (if vertical { w } else { h }),
            n == span / thick,
            n * thick <= span,
            spec == stripe_rects(r, base, thick, vertical),
            i <= n,
            rects@ == spec.take(i as int),
            forall|k: int| 0 <= k < rects@.len() ==> rect_fits(#[trigger] rects@[k]),
        decreases n - i,
    {
        assert(i * thick + thick <= span) by (nonlinear_arith)
            requires
                i < n,
                n * thick <= span,
        ;
        let (off, len) = (i * thick, if i + 1 == n { span - i * thick } else { thick });
        let rr: Rect = if vertical {
            (x0 + off, y0, len, h, c(base, i))
        } else {
            (x0, y0 + off, w, len, c(base, i))
        };
        assert(spec.take(i as int + 1) =~= spec.take(i as int).push(rr));
        rects.push(rr);
        i += 1;
    }
    assert(spec.take(n as int) =~= spec);
    paint_rects(g, &rects);
}

/// Step of the ring inset after ring `i`: 8, 12, 16, 8, ...
pub open spec fn ring_step(i: int) -> int {
    if i % 3 == 0 { 8 } else if i % 3 == 1 { 12 } else { 16 }
}

/// The rings of `zone_rings` from ring `i` on, whose inset is `inset`: rings stop
/// once a side would be 96 pixels or less.
pub open spec fn rings_from(r: Zone, base: u32, i: int, inset: int) -> Seq<Rect>
    decreases r.2 - 2 * inset,
{
    let side_w = r.2 - 2 * inset;
    let side_h = r.3 - 2 * inset;
    if side_w <= 96 || side_h <= 96 || inset < 0 {
        Seq::empty()
    } else {
        seq![((r.0 + inset) as u32, (r.1 + inset) as u32, side_w as u32, side_h as u32, c_spec(base, i as u32))]
            + rings_from(r, base, i + 1, inset + ring_step(i))
    }
}

/// Concentric square rings 8, 12 and 16 pixels thick in turn.
pub fn zone_rings(g: &mut Canvas, r: Zone, base: u32)
    requires
        old(g).wf(),
        zone_fits(r),
        base + r.2 <= u32::MAX,
    ensures
        final(g).wf(),
        final(g).width == old(g).width,
        final(g).height == old(g).height,
        final(g).idx@ == painted_rects(old(g).idx@, old(g).width as int, rings_from(r, base, 0, 0)),
{
    let (x0, y0, w, h) = r;
    let ghost full = rings_from(r, base, 0, 0);
    let mut rects: Vec<Rect> = Vec::new();
    let mut inset: u32 = 0;
    let mut i: u32 = 0;
    loop
        invariant
            r == (x0, y0, w, h),
            zone_fits(r),
            base + w <= u32::MAX,
            2 * inset <= w,
            i <= inset,
            full == rects@ + rings_from(r, base, i as int, inset as int),
            forall|k: int| 0 <= k < rects@.len() ==> rect_fits(#[trigger] rects@[k]),
        ensures
            full == rects@,
            forall|k: int| 0 <= k < rects@.len() ==> rect_fits(#[trigger] rects@[k]),
        decreases w - 2 * inset,
    {
        if 2 * inset >= w || 2 * inset >= h {
            assert(rings_from(r, base, i as int, inset as int) =~= Seq::empty());
            assert(rects@ + Seq::<Rect>::empty() =~= rects@);
            break;
        }
        let (side_w, side_h) = (w - 2 * inset, h - 2 * inset);
        if side_w <= 96 || side_h <= 96 {
            assert(rects@ + Seq::<Rect>::empty() =~= rects@);
            break;
        }
        let rr: Rect = (x0 + inset, y0 + inset, side_w, side_h, c(base, i));
        let step: u32 = if i % 3 == 0 { 8 } else if i % 3 == 1 { 12 } else { 16 };
        proof {
            let rest = rings_from(r, base, i as int + 1, (inset + step) as int);
            assert(rings_from(r, base, i as int, inset as int) == seq![rr] + rest);
            assert(rects@ + (seq![rr] + rest) =~= rects@.push(rr) + rest);
        }
        rects.push(rr);
        inset = inset + step;
        i += 1;
    }
    assert(full =~= rects@);
    paint_rects(g, &rects);
}

/// The comb of `zone_serpentine`: the channel, the spine, and the teeth.
pub open spec fn serpentine_rects(r: Zone, base: u32) -> Seq<Rect> {
    let teeth = (r.3 - 8) / 32;
    seq![(r.0, r.1, r.2, r.3, c_spec(base, 1)), (r.0, r.1, 8u32, r.3, c_spec(base, 0))]
        + Seq::new(teeth as nat, |i: int| ((r.0 + 8) as u32, (r.1 + 8 + i * 32) as u32, (r.2 - 32) as u32, 8u32, c_spec(base, 0)))
}

/// A comb-shaped corridor: two regions only, but the channel snakes through the
/// whole zone.
pub fn zone_serpentine(g: &mut Canvas, r: Zone, base: u32)
    requires
        old(g).wf(),
        zone_fits(r),
        r.2 >= 32,
        r.3 >= 8,
        base + 1 <= u32::MAX,
    ensures
        final(g).wf(),
        final(g).width == old(g).width,
        final(g).height == old(g).height,
        final(g).idx@ == painted_rects(old(g).idx@, old(g).width as int, serpentine_rects(r, base)),
{
    let ghost spec = serpentine_rects(r, base);
    let (x0, y0, w, h) = r;
    let (wall, chan) = (c(base, 0), c(base, 1));
    let mut rects: Vec<Rect> = Vec::new();
    rects.push((x0, y0, w, h, chan));
    rects.push((x0, y0, 8, h, wall));
    let teeth = (h - 8) / 32;
    assert(teeth * 32 <= h - 8) by (nonlinear_arith)
        requires
            teeth == (h - 8) / 32,
            h >= 8,
    ;
    let mut i: u32 = 0;
    while i < teeth
        invariant
            r == (x0, y0, w, h),
            zone_fits(r),
            w >= 32,
            h >= 8,
            wall == c_spec(base, 0),
            teeth == (h - 8) / 32,
            teeth * 32 <= h - 8,
            spec == serpentine_rects(r, base),
            i <= teeth,
            rects@ == spec.take(i + 2),
            forall|k: int| 0 <= k < rects@.len() ==> rect_fits(#[trigger] rects@[k]),
        decreases teeth - i,
    {
        assert(i * 32 + 16 <= h) by (nonlinear_arith)
            requires
                i < teeth,
                teeth * 32 <= h - 8,
        ;
        let rr: Rect = (x0 + 8, y0 + 8 + i * 32, w - 8 - 24, 8, wall);
        assert(spec.take(i + 3) =~= spec.take(i + 2).push(rr));
        rects.push(rr);
        i += 1;
    }
    assert(spec.take(teeth + 2) =~= spec);
    paint_rects(g, &rects);
}

/// The isolated fragments of `zone_fragments`, each `(w, h)`.
pub const SHAPES: [(u32, u32); 16] = [
    (200, 8),
    (8, 200),
    (32, 32),
    (64, 16),
    (16, 64),
    (128, 8),
    (8, 128),
    (40, 32),
    (48, 24),
    (24, 48),
    (96, 12),
    (12, 96),
    (64, 32),
    (32, 64),
    (160, 8),
    (8, 160),
];

pub open spec fn fragment_rects(r: Zone, base: u32) -> Seq<Rect> {
    seq![(r.0, r.1, r.2, r.3, c_spec(base, 0))] + Seq::new(16, |i: int| (
        (r.0 + 40 + (i % 4) * 240) as u32,
        (r.1 + 40 + (i / 4) * 240) as u32,
        SHAPES@[i].0,
        SHAPES@[i].1,
        c_spec(base, (1 + i % 3) as u32),
    ))
}

/// Isolated fragments of extreme aspect ratio on a plain ground.
pub fn zone_fragments(g: &mut Canvas, r: Zone, base: u32)
    requires
        old(g).wf(),
        r.0 + 1000 <= u32::MAX,
        r.1 + 1000 <= u32::MAX,
        zone_fits(r),
        base + 3 <= u32::MAX,
    ensures
        final(g).wf(),
        final(g).width == old(g).width,
        final(g).height == old(g).height,
        final(g).idx@ == painted_rects(old(g).idx@, old(g).width as int, fragment_rects(r, base)),
{
    let ghost spec = fragment_rects(r, base);
    let (x0, y0, w, h) = r;
    let mut rects: Vec<Rect> = Vec::new();
    rects.push((x0, y0, w, h, c(base, 0)));
    let mut i: u32 = 0;
    while i < 16
        invariant
            r == (x0, y0, w, h),
            x0 + 1000 <= u32::MAX,
            y0 + 1000 <= u32::MAX,
            zone_fits(r),
            base + 3 <= u32::MAX,
            spec == fragment_rects(r, base),
            i <= 16,
            rects@ == spec.take(i + 1),
            forall|k: int| 0 <= k < rects@.len() ==> rect_fits(#[trigger] rects@[k]),
        decreases 16 - i,
    {
        let (sw, sh) = SHAPES[i as usize];
        let rr: Rect = (x0 + 40 + (i % 4) * 240, y0 + 40 + (i / 4) * 240, sw, sh, c(base, 1 + i % 3));
        assert(spec.take(i + 2) =~= spec.take(i + 1).push(rr));
        rects.push(rr);
        i += 1;
    }
    assert(spec.take(17) =~= spec);
    paint_rects(g, &rects);
}

pub open spec fn edge_rects(r: Zone, base: u32) -> Seq<Rect> {
    let bottom = r.1 + r.3;
    seq![
        (r.0, r.1, r.2, r.3, c_spec(base, 0)),
        (r.0, (bottom - 32) as u32, 32u32, 32u32, c_spec(base, 1)),
        (r.0, (r.1 + 128) as u32, 8u32, 512u32, c_spec(base, 2)),
        ((r.0 + 200) as u32, (bottom - 8) as u32, 512u32, 8u32, c_spec(base, 3)),
        ((r.0 + 800) as u32, (bottom - 512) as u32, 8u32, 512u32, c_spec(base, 4)),
    ]
}

/// Features flush with the canvas edges and corner: edge handling's off-by-one
/// errors show here.
pub fn zone_edges(g: &mut Canvas, r: Zone, base: u32)
    requires
        old(g).wf(),
        r.0 + 1000 <= u32::MAX,
        r.1 + 1000 <= u32::MAX,
        zone_fits(r),
        r.3 >= 512,
        base + 4 <= u32::MAX,
    ensures
        final(g).wf(),
        final(g).width == old(g).width,
        final(g).height == old(g).height,
        final(g).idx@ == painted_rects(old(g).idx@, old(g).width as int, edge_rects(r, base)),
{
    let (x0, y0, w, h) = r;
    let bottom = y0 + h;
    let mut rects: Vec<Rect> = Vec::new();
    rects.push((x0, y0, w, h, c(base, 0)));
    rects.push((x0, bottom - 32, 32, 32, c(base, 1)));
    rects.push((x0, y0 + 128, 8, 512, c(base, 2)));
    rects.push((x0 + 200, bottom - 8, 512, 8, c(base, 3)));
    rects.push((x0 + 800, bottom - 512, 8, 512, c(base, 4)));
    assert(rects@ =~= edge_rects(r, base));
    paint_rects(g, &rects);
}

/// Pixel `p` differs from one of its 4-neighbours: it lies on a region boundary.
pub open spec fn is_edge(idx: Seq<u8>, w: int, h: int, p: int) -> bool {
    let x = p % w;
    let y = p / w;
    ||| x + 1 < w && idx[p + 1] != idx[p]
    ||| y + 1 < h && idx[p + w] != idx[p]
    ||| x > 0 && idx[p - 1] != idx[p]
    ||| y > 0 && idx[p - w] != idx[p]
}

/// The line art of a canvas: opaque black on every boundary pixel, transparent elsewhere.
pub open spec fn lineart_spec(idx: Seq<u8>, w: int, h: int) -> Seq<u8> {
    Seq::new((4 * (w * h)) as nat, |i: int| if i % 4 == 3 && is_edge(idx, w, h, i / 4) { 255u8 } else { 0u8 })
}

/// Colour of the seed dot of index `i`: the `PERM`-mapped palette entry.
pub open spec fn dot_color(i: u8) -> [u8; 3] {
    PALETTE@[PERM@[i as int] as int]
}

/// The line pixels of a canvas's line art.
pub open spec fn canvas_line(idx: Seq<u8>, w: int, h: int) -> Seq<bool> {
    line_mask_spec(lineart_spec(idx, w, h), DEFAULT_LINE_THRESHOLD)
}

/// The palette index of each pixel, as component keys.
pub open spec fn idx_keys(idx: Seq<u8>) -> Seq<u32> {
    idx.map_values(|v: u8| v as u32)
}

/// `a` is the non-line pixel of `blob` nearest its integer centroid, the
/// earliest on a tie.
pub open spec fn nearest_free(blob: Seq<u32>, line: Seq<bool>, w: int, a: u32) -> bool {
    let n = blob.len() as int;
    let cx = coord_sum(blob, w, false) / n;
    let cy = coord_sum(blob, w, true) / n;
    &&& blob.contains(a)
    &&& !line[a as int]
    &&& forall|i: int| 0 <= i < n && !line[blob[i] as int] ==> dist2(a as int, w, cx, cy) < dist2(blob[i] as int, w, cx, cy)
        || (dist2(a as int, w, cx, cy) == dist2(blob[i] as int, w, cx, cy) && a <= blob[i])
}

/// `out` is the seeds image of a canvas: every painted pixel is a non-line pixel
/// in its index's dot colour, and every connected block of equal index that has a
/// non-line pixel shows exactly one dot, grown from the non-line pixel nearest
/// its centroid over at most `SYNTH_DOT_AREA` of its non-line pixels.
pub open spec fn canvas_seeds(idx: Seq<u8>, w: int, h: int, out: Seq<u8>) -> bool {
    let line = canvas_line(idx, w, h);
    &&& out.len() == 4 * (w * h)
    &&& exists|c: Components| #[trigger] is_labelling(c, idx_keys(idx), all_active(w * h), w, h) && {
        &&& forall|p: int| 0 <= p < w * h ==> #[trigger] px(out, p) == [0u8, 0u8, 0u8, 0u8]
            || (!line[p] && px(out, p) == solid(dot_color(idx[p])))
        &&& forall|k: int| 0 <= k < c.first@.len() && (exists|i: int| 0 <= i < (#[trigger] c.blobs@[k])@.len() && !line[c.blobs@[k]@[i] as int])
            ==> exists|a: u32| {
                &&& nearest_free(c.blobs@[k]@, line, w, a)
                &&& px(out, a as int) == solid(dot_color(idx[a as int]))
                &&& dot_painted(out, c, free_of(line), SYNTH_DOT_AREA as int, k, a, w, h, dot_color(idx[a as int]))
            }
    }
}

/// The blob has a non-line pixel.
pub open spec fn has_free(blob: Seq<u32>, line: Seq<bool>) -> bool {
    exists|i: int| 0 <= i < blob.len() && !line[blob[i] as int]
}

/// How many of the first `m` components of `c` have a non-line pixel.
pub open spec fn free_blocks(c: Components, line: Seq<bool>, m: int) -> nat
    decreases m,
{
    if m <= 0 {
        0
    } else {
        free_blocks(c, line, m - 1) + (if has_free(c.blobs@[m - 1]@, line) { 1nat } else { 0nat })
    }
}

proof fn lemma_free_block_set(c: Components, line: Seq<bool>, m: int)
    requires
        0 <= m,
    ensures
        Set::new(|k: int| 0 <= k < m && has_free(c.blobs@[k]@, line)).finite(),
        Set::new(|k: int| 0 <= k < m && has_free(c.blobs@[k]@, line)).len() == free_blocks(c, line, m),
    decreases m,
{
    let s = Set::new(|k: int| 0 <= k < m && has_free(c.blobs@[k]@, line));
    if m == 0 {
        assert(s =~= Set::empty());
    } else {
        lemma_free_block_set(c, line, m - 1);
        let s0 = Set::new(|k: int| 0 <= k < m - 1 && has_free(c.blobs@[k]@, line));
        if has_free(c.blobs@[m - 1]@, line) {
            assert(s =~= s0.insert(m - 1));
        } else {
            assert(s =~= s0);
        }
    }
}

/// A pixel of a canvas's line art is a line pixel exactly where the canvas has
/// an edge; a pixel off the line has its index on all four sides.
proof fn lemma_canvas_line(idx: Seq<u8>, w: int, h: int, p: int)
    requires
        w >= 1,
        h >= 1,
        0 <= p < w * h,
    ensures
        canvas_line(idx, w, h)[p] == is_edge(idx, w, h, p),
        !canvas_line(idx, w, h)[p] ==> forall|d: int| 0 <= d < 4 && #[trigger] has_nbr(w, h, p, d) ==> idx[nbr(w, p, d)] == idx[p],
{
    let art = lineart_spec(idx, w, h);
    assert(art.len() / 4 == w * h);
    assert((4 * p + 3) % 4 == 3 && (4 * p + 3) / 4 == p);
    assert(canvas_line(idx, w, h)[p] == (art[4 * p + 3] >= DEFAULT_LINE_THRESHOLD));
}

/// The anchor of block `k`'s dot in a canvas's seeds image.
spec fn block_anchor(idx: Seq<u8>, w: int, h: int, out: Seq<u8>, c: Components, k: int) -> u32 {
    let line = canvas_line(idx, w, h);
    choose|a: u32| {
        &&& nearest_free(c.blobs@[k]@, line, w, a)
        &&& px(out, a as int) == solid(dot_color(idx[a as int]))
        &&& dot_painted(out, c, free_of(line), SYNTH_DOT_AREA as int, k, a, w, h, dot_color(idx[a as int]))
    }
}

proof fn lemma_canvas_layout(idx: Seq<u8>, w: int, h: int, out: Seq<u8>, c: Components)
    requires
        w >= 0,
        h >= 0,
        w * h < NONE,
        idx.len() == w * h,
        out.len() == 4 * (w * h),
        is_labelling(c, idx_keys(idx), all_active(w * h), w, h),
        forall|p: int| 0 <= p < w * h ==> #[trigger] px(out, p) == [0u8, 0u8, 0u8, 0u8]
            || (!canvas_line(idx, w, h)[p] && px(out, p) == solid(dot_color(idx[p]))),
        forall|k: int| 0 <= k < c.first@.len() && (exists|i: int| 0 <= i < (#[trigger] c.blobs@[k])@.len() && !canvas_line(idx, w, h)[c.blobs@[k]@[i] as int])
            ==> exists|a: u32| {
                &&& nearest_free(c.blobs@[k]@, canvas_line(idx, w, h), w, a)
                &&& px(out, a as int) == solid(dot_color(idx[a as int]))
                &&& dot_painted(out, c, free_of(canvas_line(idx, w, h)), SYNTH_DOT_AREA as int, k, a, w, h, dot_color(idx[a as int]))
            },
    ensures
        dots_layout(
            painted(out, w * h),
            c,
            free_of(canvas_line(idx, w, h)),
            SYNTH_DOT_AREA as int,
            |k: int| has_free(c.blobs@[k]@, canvas_line(idx, w, h)),
            |k: int| block_anchor(idx, w, h, out, c, k),
            w,
            h,
        ),
{
    let n = w * h;
    let line = canvas_line(idx, w, h);
    let free = free_of(line);
    let marked = painted(out, n);
    let sel = |k: int| has_free(c.blobs@[k]@, line);
    let anchor = |k: int| block_anchor(idx, w, h, out, c, k);
    assert forall|k: int| 0 <= k < c.first@.len() && #[trigger] sel(k) implies anchor(k) < n && c.labels@[anchor(k) as int] == k
        && free[anchor(k) as int] by {
        assert(c.blobs@[k]@.len() >= 0);
        let a = anchor(k);
        assert(nearest_free(c.blobs@[k]@, line, w, a));
        let i = choose|i: int| 0 <= i < c.blobs@[k]@.len() && c.blobs@[k]@[i] == a;
        assert(c.blobs@[k]@[i] < n && c.labels@[c.blobs@[k]@[i] as int] == k);
    }
    assert forall|p: int| 0 <= p < n implies (#[trigger] marked[p] <==> (c.labels@[p] != NONE && sel(c.labels@[p] as int)
        && dot_of(c, free, SYNTH_DOT_AREA as int, anchor, w, h, c.labels@[p] as int).contains(p as usize))) by {
        let k = c.labels@[p] as int;
        assert(marked[p] == (alpha(out, p) > 0));
        assert(px(out, p)[3] == alpha(out, p));
        assert(all_active(n)[p]);
        assert(c.blobs@[k]@.contains(p as u32));
        if sel(k) {
            let a = anchor(k);
            assert(c.blobs@[k]@.len() >= 0);
            assert(dot_painted(out, c, free, SYNTH_DOT_AREA as int, k, a, w, h, dot_color(idx[a as int])));
        } else {
            let i = choose|i: int| 0 <= i < c.blobs@[k]@.len() && c.blobs@[k]@[i] == p as u32;
            assert(line[c.blobs@[k]@[i] as int]);
        }
    }
    assert forall|p: int, d: int| 0 <= p < n && 0 <= d < 4 && #[trigger] has_nbr(w, h, p, d) && marked[p] && marked[nbr(w, p, d)]
        implies c.labels@[p] == c.labels@[nbr(w, p, d)] by {
        let q = nbr(w, p, d);
        assert(w >= 1 && h >= 1) by (nonlinear_arith)
            requires
                0 <= p < w * h,
                w >= 0,
                h >= 0,
        ;
        lemma_nbr(w, h, p, d);
        assert(px(out, p)[3] == alpha(out, p));
        assert(px(out, p) != [0u8, 0u8, 0u8, 0u8]);
        lemma_canvas_line(idx, w, h, p);
        assert(idx[q] == idx[p]);
        assert(all_active(n)[p] && all_active(n)[q]);
        assert(idx_keys(idx)[p] == idx_keys(idx)[q]);
        assert(closed(c.labels@, idx_keys(idx), all_active(n), w, h, n));
    }
}

/// Reading a canvas's seeds image gives exactly one seed per connected block of
/// equal index that has a non-line pixel; each seed's anchor is off the line, and
/// its colour is the dot colour of the index under its anchor. This is what makes
/// a synthetic asset compliant.
pub proof fn law_one_seed_per_block(idx: Seq<u8>, width: u32, height: u32, seeds: Seq<u8>, out: Seq<Seed>)
    requires
        width * height < NONE,
        idx.len() == width * height,
        canvas_seeds(idx, width as int, height as int, seeds),
        reads_as(seeds, width, height, out),
    ensures
        exists|c: Components| #[trigger] is_labelling(c, idx_keys(idx), all_active(width * height), width as int, height as int)
            && out.len() == free_blocks(c, canvas_line(idx, width as int, height as int), c.first@.len() as int),
        forall|i: int| 0 <= i < out.len() ==> {
            let a = ((#[trigger] out[i]).anchor.1 * width + out[i].anchor.0) as u32 as int;
            &&& a < width * height
            &&& !canvas_line(idx, width as int, height as int)[a]
            &&& out[i].color == dot_color(idx[a])
        },
{
    let n = width * height;
    let (w, h) = (width as int, height as int);
    let line = canvas_line(idx, w, h);
    let free = free_of(line);
    let c = choose|c: Components| #[trigger] is_labelling(c, idx_keys(idx), all_active(w * h), w, h) && {
        &&& forall|p: int| 0 <= p < w * h ==> #[trigger] px(seeds, p) == [0u8, 0u8, 0u8, 0u8]
            || (!line[p] && px(seeds, p) == solid(dot_color(idx[p])))
        &&& forall|k: int| 0 <= k < c.first@.len() && (exists|i: int| 0 <= i < (#[trigger] c.blobs@[k])@.len() && !line[c.blobs@[k]@[i] as int])
            ==> exists|a: u32| {
                &&& nearest_free(c.blobs@[k]@, line, w, a)
                &&& px(seeds, a as int) == solid(dot_color(idx[a as int]))
                &&& dot_painted(seeds, c, free_of(line), SYNTH_DOT_AREA as int, k, a, w, h, dot_color(idx[a as int]))
            }
    };
    let (c2, desc) = choose|c2: Components, desc: Seq<Seed>|
        #![trigger is_labelling(c2, zero_keys(width * height), painted(seeds, width * height), width as int, height as int), desc.to_multiset()]
    {
        &&& is_labelling(c2, zero_keys(width * height), painted(seeds, width * height), width as int, height as int)
        &&& desc.len() == c2.first@.len()
        &&& forall|k: int| 0 <= k < desc.len() ==> describes_blob(seeds, width as int, c2.blobs@[k]@, #[trigger] desc[k])
        &&& out.to_multiset() == desc.to_multiset()
    };
    let sel = |k: int| has_free(c.blobs@[k]@, line);
    let anchor = |k: int| block_anchor(idx, w, h, seeds, c, k);
    lemma_canvas_layout(idx, w, h, seeds, c);
    lemma_one_blob_per_dot(painted(seeds, n), c, c2, idx_keys(idx), all_active(n), free, SYNTH_DOT_AREA as int, sel, anchor, w, h);
    lemma_free_block_set(c, line, c.first@.len() as int);
    assert(Set::new(|k: int| 0 <= k < c.first@.len() && sel(k)) =~= Set::new(|k: int| 0 <= k < c.first@.len() && has_free(c.blobs@[k]@, line)));
    vstd::seq_lib::to_multiset_len(out);
    vstd::seq_lib::to_multiset_len(desc);
    assert forall|i: int| 0 <= i < out.len() implies {
        let a = ((#[trigger] out[i]).anchor.1 * width + out[i].anchor.0) as u32 as int;
        &&& a < width * height
        &&& !canvas_line(idx, width as int, height as int)[a]
        &&& out[i].color == dot_color(idx[a])
    } by {
        assert(out.contains(out[i]));
        vstd::seq_lib::to_multiset_contains(out, out[i]);
        vstd::seq_lib::to_multiset_contains(desc, out[i]);
        let l = choose|l: int| 0 <= l < desc.len() && desc[l] == out[i];
        let k = c.labels@[c2.first@[l] as int] as int;
        let ak = anchor(k);
        let col = dot_color(idx[ak as int]);
        let blob = c2.blobs@[l]@;
        assert(c.blobs@[k]@.len() >= 0);
        assert(dot_painted(seeds, c, free, SYNTH_DOT_AREA as int, k, ak, w, h, col));
        assert forall|j: int| 0 <= j < blob.len() implies alpha(seeds, #[trigger] blob[j] as int) == 255 && px_rgb(seeds, blob[j] as int) == col
            && idx[blob[j] as int] == idx[ak as int] && !line[blob[j] as int] by {
            let q = blob[j] as int;
            assert(q < n);
            assert(c.labels@[q] == k);
            assert(px(seeds, q) == solid(col));
            assert(px(seeds, q)[3] == alpha(seeds, q));
            assert(idx_keys(idx)[q] == idx_keys(idx)[ak as int]);
        }
        lemma_uniform_counts(seeds, blob, col, desc[l].color);
        assert(c2.blobs@[c2.labels@[c2.first@[l] as int] as int]@.contains(c2.first@[l]));
        assert(describes_blob(seeds, w, blob, desc[l]));
        assert(is_mode(seeds, blob, desc[l].color));
        let a = (out[i].anchor.1 * width + out[i].anchor.0) as u32;
        let ja = choose|ja: int| 0 <= ja < blob.len() && blob[ja] == a;
        assert(idx[blob[ja] as int] == idx[ak as int]);
    }
}

/// Target area of a synthetic seed dot, with margin over the minimum seed area.
pub const SYNTH_DOT_AREA: usize = 96;

impl Canvas {
    /// Region boundaries as line art: one-pixel opaque black, truly transparent elsewhere.
    pub fn lineart_rgba(&self) -> (out: Vec<u8>)
        requires
            self.wf(),
            4 * (self.width * self.height) <= u32::MAX,
        ensures
            out@ == lineart_spec(self.idx@, self.width as int, self.height as int),
    {
        let (w, h) = (self.width as usize, self.height as usize);
        let n = w * h;
        let mut out: Vec<u8> = vec![0u8; 4 * n];
        let ghost spec = lineart_spec(self.idx@, w as int, h as int);
        let mut p: usize = 0;
        while p < n
            invariant
                self.wf(),
                w == self.width,
                h == self.height,
                n == w * h,
                4 * n <= u32::MAX,
                spec == lineart_spec(self.idx@, w as int, h as int),
                p <= n,
                out@.len() == 4 * n,
                forall|i: int| 0 <= i < 4 * n ==> #[trigger] out@[i] == (if i < 4 * p { spec[i] } else { 0u8 }),
            decreases n - p,
        {
            let (x, y) = (p % w, p / w);
            assert(y < h) by (nonlinear_arith)
                requires
                    p < n,
                    n == w * h,
                    y == p / w,
                    w >= 1,
            ;
            assert(y * w + x == p) by (nonlinear_arith)
                requires
                    x == p % w,
                    y == p / w,
                    w >= 1,
            ;
            assert((x + 1 < w ==> p + 1 < n) && (y + 1 < h ==> p + w < n) && (y > 0 ==> p >= w)) by (nonlinear_arith)
                requires
                    y * w + x == p,
                    x < w,
                    y < h,
                    n == w * h,
            ;
            let here = self.idx[p];
            let edge = (x + 1 < w && self.idx[p + 1] != here)
                || (y + 1 < h && self.idx[p + w] != here)
                || (x > 0 && self.idx[p - 1] != here)
                || (y > 0 && self.idx[p - w] != here);
            assert(edge == is_edge(self.idx@, w as int, h as int, p as int));
            if edge {
                out.set(4 * p + 3, 255);
            }
            proof {
                assert forall|i: int| 0 <= i < 4 * n implies #[trigger] out@[i] == (if i < 4 * (p + 1) { spec[i] } else { 0u8 }) by {
                    if 4 * p <= i < 4 * p + 4 {
                        assert(i / 4 == p);
                    }
                }
            }
            p += 1;
        }
        assert(out@ =~= spec);
        out
    }
}

/// The non-line pixels of a line mask.
pub open spec fn free_of(line: Seq<bool>) -> Seq<bool> {
    line.map_values(|l: bool| !l)
}

/// Paints the seed dot of component `k`: from the non-line pixel of `blob`
/// nearest its centroid, breadth first over the component's non-line pixels, up
/// to `SYNTH_DOT_AREA` pixels. A component without non-line pixels gets no dot.
fn synth_dot(
    out: &mut Vec<u8>,
    taken: &mut Vec<bool>,
    blob: &Vec<u32>,
    line: &Vec<bool>,
    free: &Vec<bool>,
    labels: &Vec<u32>,
    k: u32,
    color: [u8; 3],
    w: usize,
    h: usize,
) -> (anchor: Option<u32>)
    requires
        w >= 1,
        h >= 1,
        w < 0x8000_0000,
        h < 0x8000_0000,
        w * h < NONE,
        labels@.len() == w * h,
        line@.len() == w * h,
        free@ == free_of(line@),
        old(taken)@.len() == w * h,
        old(out)@.len() == 4 * (w * h),
        blob@.len() > 0,
        blob@.len() <= u32::MAX,
        forall|i: int| 0 <= i < blob@.len() ==> (#[trigger] blob@[i]) < w * h && labels@[blob@[i] as int] == k,
        forall|p: int| 0 <= p < w * h && labels@[p] == k ==> !(#[trigger] old(taken)@[p]),
    ensures
        final(out)@.len() == old(out)@.len(),
        final(taken)@.len() == old(taken)@.len(),
        forall|p: int| 0 <= p < w * h && labels@[p] != k ==> #[trigger] px(final(out)@, p) == px(old(out)@, p),
        forall|p: int| 0 <= p < w * h && labels@[p] != k ==> #[trigger] final(taken)@[p] == old(taken)@[p],
        forall|p: int| 0 <= p < w * h && labels@[p] == k ==> #[trigger] px(final(out)@, p) == px(old(out)@, p)
            || (px(final(out)@, p) == solid(color) && !line@[p]),
        match anchor {
            Some(a) => {
                &&& nearest_free(blob@, line@, w as int, a)
                &&& px(final(out)@, a as int) == solid(color)
                &&& forall|p: int| 0 <= p < w * h && labels@[p] == k ==> #[trigger] px(final(out)@, p) == if dot_pixels(
                    labels@,
                    k,
                    free@,
                    w as int,
                    h as int,
                    SYNTH_DOT_AREA as int,
                    a as usize,
                ).contains(p as usize) {
                    solid(color)
                } else {
                    px(old(out)@, p)
                }
            },
            None => {
                &&& forall|i: int| 0 <= i < blob@.len() ==> line@[#[trigger] blob@[i] as int]
                &&& final(out)@ == old(out)@
            },
        },
{
    let (cx, cy) = blob_centroid(blob, w, h);
    let ghost gcx = coord_sum(blob@, w as int, false) / (blob@.len() as int);
    let ghost gcy = coord_sum(blob@, w as int, true) / (blob@.len() as int);
    let mut best: Option<(u32, i64)> = None;
    let mut i: usize = 0;
    while i < blob.len()
        invariant
            w >= 1,
            w < 0x8000_0000,
            h < 0x8000_0000,
            line@.len() == w * h,
            forall|j: int| 0 <= j < blob@.len() ==> (#[trigger] blob@[j]) < w * h,
            cx == gcx,
            cy == gcy,
            0 <= cx < w,
            0 <= cy < h,
            i <= blob@.len(),
            match best {
                Some((a, d)) => blob@.contains(a) && !line@[a as int] && d == dist2(a as int, w as int, gcx, gcy)
                    && forall|j: int| 0 <= j < i && !line@[blob@[j] as int] ==> dist2(a as int, w as int, gcx, gcy) < dist2(blob@[j] as int, w as int, gcx, gcy)
                        || (dist2(a as int, w as int, gcx, gcy) == dist2(blob@[j] as int, w as int, gcx, gcy) && a <= blob@[j]),
                None => forall|j: int| 0 <= j < i ==> line@[#[trigger] blob@[j] as int],
            },
        decreases blob@.len() - i,
    {
        let p = blob[i];
        if !line[p as usize] {
            let d = dist2_exec(p as usize, w, h, cx, cy);
            match best {
                None => {
                    best = Some((p, d));
                },
                Some((a, bd)) => {
                    if d < bd || (d == bd && p < a) {
                        best = Some((p, d));
                    }
                },
            }
        }
        i += 1;
    }
    let anchor = match best {
        None => {
            return None;
        },
        Some((a, _)) => a as usize,
    };
    proof {
        let j = choose|j: int| 0 <= j < blob@.len() && blob@[j] == anchor as u32;
        assert(labels@[anchor as int] == k);
        assert(free@[anchor as int]);
    }
    paint_dot(out, taken, anchor, labels, free, k, color, SYNTH_DOT_AREA, w, h);
    Some(anchor as u32)
}

impl Canvas {
    /// One seed dot per connected block of equal index, coloured with the
    /// `PERM`-mapped palette entry, placed on non-line pixels only.
    pub fn seeds_rgba(&self) -> (out: Vec<u8>)
        requires
            self.wf(),
            4 * (self.width * self.height) <= u32::MAX,
            self.width < 0x8000_0000,
            self.height < 0x8000_0000,
            forall|i: int| 0 <= i < self.idx@.len() ==> (#[trigger] self.idx@[i]) < 16,
        ensures
            canvas_seeds(self.idx@, self.width as int, self.height as int, out@),
    {
        let (w, h) = (self.width as usize, self.height as usize);
        let n = w * h;
        let art = self.lineart_rgba();
        let line = line_mask(&art, DEFAULT_LINE_THRESHOLD);
        assert(line@.len() == n);
        let mut keys: Vec<u32> = Vec::with_capacity(n);
        let mut active: Vec<bool> = Vec::with_capacity(n);
        let mut free: Vec<bool> = Vec::with_capacity(n);
        let mut i: usize = 0;
        while i < n
            invariant
                n == w * h,
                self.idx@.len() == n,
                line@.len() == n,
                i <= n,
                keys@ == idx_keys(self.idx@).take(i as int),
                active@ == all_active(n as int).take(i as int),
                free@ == free_of(line@).take(i as int),
            decreases n - i,
        {
            keys.push(self.idx[i] as u32);
            active.push(true);
            free.push(!line[i]);
            assert(keys@ =~= idx_keys(self.idx@).take(i as int + 1));
            assert(active@ =~= all_active(n as int).take(i as int + 1));
            assert(free@ =~= free_of(line@).take(i as int + 1));
            i += 1;
        }
        assert(keys@ =~= idx_keys(self.idx@));
        assert(active@ =~= all_active(n as int));
        assert(free@ =~= free_of(line@));
        let c = label_components(&keys, &active, w, h);
        let mut out: Vec<u8> = vec![0u8; 4 * n];
        let mut taken: Vec<bool> = vec![false; n];
        let count = c.blobs.len();
        let ghost labels = c.labels@;
        let ghost lines = line@;
        let ghost idx = self.idx@;
        let mut k: usize = 0;
        while k < count
            invariant
                n == w * h,
                n < NONE,
                w < 0x8000_0000,
                h < 0x8000_0000,
                idx == self.idx@,
                idx.len() == n,
                forall|q: int| 0 <= q < n ==> (#[trigger] idx[q]) < 16,
                is_labelling(c, idx_keys(idx), all_active(n as int), w as int, h as int),
                labels == c.labels@,
                lines == line@,
                line@.len() == n,
                count == c.blobs@.len(),
                count == c.first@.len(),
                out@.len() == 4 * n,
                taken@.len() == n,
                k <= count,
                forall|p: int| 0 <= p < n ==> #[trigger] px(out@, p) == [0u8, 0u8, 0u8, 0u8]
                    || (!lines[p] && px(out@, p) == solid(dot_color(idx[p]))),
                forall|p: int| 0 <= p < n && labels[p] >= k ==> #[trigger] px(out@, p) == [0u8, 0u8, 0u8, 0u8],
                forall|p: int| 0 <= p < n && labels[p] >= k ==> !(#[trigger] taken@[p]),
                free@ == free_of(lines),
                forall|j: int| 0 <= j < k && (exists|i: int| 0 <= i < (#[trigger] c.blobs@[j])@.len() && !lines[c.blobs@[j]@[i] as int])
                    ==> exists|a: u32| {
                        &&& nearest_free(c.blobs@[j]@, lines, w as int, a)
                        &&& px(out@, a as int) == solid(dot_color(idx[a as int]))
                        &&& dot_painted(out@, c, free_of(lines), SYNTH_DOT_AREA as int, j, a, w as int, h as int, dot_color(idx[a as int]))
                    },
            decreases count - k,
        {
            let blob = &c.blobs[k];
            let f = c.first[k] as usize;
            proof {
                lemma_distinct_below(blob@, n as int);
                assert(labels[f as int] == k);
                assert(c.blobs@[labels[f as int] as int]@.contains(f as u32));
                assert(w >= 1 && h >= 1) by (nonlinear_arith)
                    requires
                        0 <= f < n,
                        n == w * h,
                ;
            }
            let v = self.idx[f];
            let color = PALETTE[PERM[v as usize] as usize];
            let ghost before = out@;
            let anchor = synth_dot(&mut out, &mut taken, blob, &line, &free, &c.labels, k as u32, color, w, h);
            proof {
                assert forall|p: int| 0 <= p < n implies #[trigger] px(out@, p) == [0u8, 0u8, 0u8, 0u8]
                    || (!lines[p] && px(out@, p) == solid(dot_color(idx[p]))) by {
                    if labels[p] == k {
                        assert(idx_keys(idx)[p] == idx_keys(idx)[f as int]);
                    }
                }
                assert forall|j: int| 0 <= j < k + 1 && (exists|i: int| 0 <= i < (#[trigger] c.blobs@[j])@.len() && !lines[c.blobs@[j]@[i] as int])
                    implies exists|a: u32| {
                        &&& nearest_free(c.blobs@[j]@, lines, w as int, a)
                        &&& px(out@, a as int) == solid(dot_color(idx[a as int]))
                        &&& dot_painted(out@, c, free_of(lines), SYNTH_DOT_AREA as int, j, a, w as int, h as int, dot_color(idx[a as int]))
                    } by {
                    if j < k {
                        let a = choose|a: u32| {
                            &&& nearest_free(c.blobs@[j]@, lines, w as int, a)
                            &&& px(before, a as int) == solid(dot_color(idx[a as int]))
                            &&& dot_painted(before, c, free_of(lines), SYNTH_DOT_AREA as int, j, a, w as int, h as int, dot_color(idx[a as int]))
                        };
                        let i = choose|i: int| 0 <= i < c.blobs@[j]@.len() && c.blobs@[j]@[i] == a;
                        assert(labels[a as int] == j);
                        assert(px(out@, a as int) == px(before, a as int));
                        assert forall|p: int| 0 <= p < w * h && c.labels@[p] == j implies #[trigger] px(out@, p) == px(before, p) by {}
                        assert(dot_painted(out@, c, free_of(lines), SYNTH_DOT_AREA as int, j, a, w as int, h as int, dot_color(idx[a as int])));
                    } else {
                        let i = choose|i: int| 0 <= i < c.blobs@[j]@.len() && !lines[c.blobs@[j]@[i] as int];
                        let a = anchor.unwrap();
                        let ia = choose|ia: int| 0 <= ia < blob@.len() && blob@[ia] == a;
                        assert(labels[a as int] == k);
                        assert(idx_keys(idx)[a as int] == idx_keys(idx)[f as int]);
                        assert(nearest_free(c.blobs@[j]@, lines, w as int, a));
                        assert forall|p: int| 0 <= p < w * h && c.labels@[p] == j implies #[trigger] px(before, p) == [0u8, 0u8, 0u8, 0u8] by {}
                        assert(dot_painted(out@, c, free_of(lines), SYNTH_DOT_AREA as int, j, a, w as int, h as int, dot_color(idx[a as int])));
                    }
                }
            }
            k += 1;
        }
        out
    }
}

/// A synthetic asset, ready to be written out as a source directory.
pub struct Asset {
    pub id: String,
    pub title: String,
    pub category: String,
    pub notes: String,
    pub width: u32,
    pub height: u32,
    pub lineart: Vec<u8>,
    pub seeds: Vec<u8>,
    pub shade: Option<Vec<u8>>,
    /// ICC profile attached to `seeds.png`; only the Display P3 fixture has one.
    pub seeds_icc: Option<Vec<u8>>,
    pub compression: Compression,
}

/// A canvas of `w`×`h` frame pixels.
pub open spec fn blank(w: int, h: int) -> Seq<u8> {
    Seq::new((w * h) as nat, |i: int| FRAME)
}

/// The index map of a grid asset: `zone_grid` over the whole canvas.
pub open spec fn grid_idx(w: u32, h: u32, cell: u32) -> Seq<u8> {
    painted_rects(blank(w as int, h as int), w as int, grid_rects((0u32, 0u32, w, h), cell, grid_color(0)))
}

/// A soft top-to-bottom gradient with luma never below 60.
pub open spec fn shade_gradient(w: int, h: int) -> Seq<u8> {
    Seq::new((4 * (w * h)) as nat, |i: int| if i % 4 == 3 { 255u8 } else { (255 - (i / 4 / w) * 100 / h) as u8 })
}

/// Painting rectangles of colours below 16 keeps every index below 16.
proof fn lemma_painted_below_16(idx: Seq<u8>, w: int, rects: Seq<Rect>)
    requires
        forall|i: int| 0 <= i < idx.len() ==> (#[trigger] idx[i]) < 16,
        forall|k: int| 0 <= k < rects.len() ==> (#[trigger] rects[k]).4 < 16,
    ensures
        painted_rects(idx, w, rects).len() == idx.len(),
        forall|i: int| 0 <= i < idx.len() ==> (#[trigger] painted_rects(idx, w, rects)[i]) < 16,
    decreases rects.len(),
{
    if rects.len() > 0 {
        assert forall|k: int| 0 <= k < rects.drop_last().len() implies (#[trigger] rects.drop_last()[k]).4 < 16 by {
            assert(rects.drop_last()[k] == rects[k]);
        }
        lemma_painted_below_16(idx, w, rects.drop_last());
        assert(rects[rects.len() - 1].4 < 16);
    }
}

proof fn lemma_grid_colors_below_16(r: Zone, cell: u32, base: u32)
    ensures
        forall|k: int| 0 <= k < grid_rects(r, cell, grid_color(base)).len() ==> (#[trigger] grid_rects(r, cell, grid_color(base))[k]).4 < 16,
{
}

// ── the torture canvas ────────────────────────────────────────────────

/// Width of the torture canvas (3:4, no shade).
pub const T_W: u32 = 3072;
/// Height of the torture canvas.
pub const T_H: u32 = 4096;
/// Edge of one stress zone.
pub const ZONE: u32 = 1024;
pub const COLS: u32 = 3;
pub const ROWS: u32 = 4;
/// Width of the frame between zones: 8px survives downsampling and dilation.
pub const FRAME_W: u32 = 8;

/// The zone at column `zx`, row `zy`: the frame's half-width is left out on
/// inner sides only, so border zones reach the canvas edge.
pub open spec fn zone_rect_spec(zx: u32, zy: u32) -> Zone {
    let half = FRAME_W / 2;
    let x0 = if zx == 0 { 0 } else { zx * ZONE + half };
    let x1 = if zx == COLS - 1 { T_W as int } else { (zx + 1) * ZONE - half };
    let y0 = if zy == 0 { 0 } else { zy * ZONE + half };
    let y1 = if zy == ROWS - 1 { T_H as int } else { (zy + 1) * ZONE - half };
    (x0 as u32, y0 as u32, (x1 - x0) as u32, (y1 - y0) as u32)
}

pub fn zone_rect(zx: u32, zy: u32) -> (r: Zone)
    requires
        zx < COLS,
        zy < ROWS,
    ensures
        r == zone_rect_spec(zx, zy),
        r.0 + r.2 <= T_W,
        r.1 + r.3 <= T_H,
        1000 <= r.2 <= ZONE,
        1000 <= r.3 <= ZONE,
{
    let half = FRAME_W / 2;
    let x0 = if zx == 0 { 0 } else { zx * ZONE + half };
    let x1 = if zx == COLS - 1 { T_W } else { (zx + 1) * ZONE - half };
    let y0 = if zy == 0 { 0 } else { zy * ZONE + half };
    let y1 = if zy == ROWS - 1 { T_H } else { (zy + 1) * ZONE - half };
    (x0, y0, x1 - x0, y1 - y0)
}

/// The pie zone as 1×1 rectangles: pixel `i` of the zone (row-major) takes
/// colour `c(base, ks[i])`.
pub open spec fn pie_rects(r: Zone, base: u32, ks: Seq<u8>) -> Seq<Rect> {
    Seq::new((r.2 * r.3) as nat, |i: int| ((r.0 + i % (r.2 as int)) as u32, (r.1 + i / (r.2 as int)) as u32, 1u32, 1u32, c_spec(base, ks[i] as u32)))
}

/// Radial wedges round a central disc, every wedge touching the disc: the
/// centre region has as many neighbours as there are wedges. Which colour each
/// pixel takes (`ks`, row-major over the zone) is decided by angle and radius,
/// computed by the caller.
pub fn zone_pie(g: &mut Canvas, r: Zone, base: u32, ks: &[u8])
    requires
        old(g).wf(),
        zone_fits(r),
        r.2 * r.3 <= u32::MAX,
        ks@.len() == r.2 * r.3,
        base + 255 <= u32::MAX,
    ensures
        final(g).wf(),
        final(g).width == old(g).width,
        final(g).height == old(g).height,
        final(g).idx@ == painted_rects(old(g).idx@, old(g).width as int, pie_rects(r, base, ks@)),
{
    let n = r.2 * r.3;
    let mut rects: Vec<Rect> = Vec::new();
    let mut i: u32 = 0;
    while i < n
        invariant
            n == r.2 * r.3,
            ks@.len() == n,
            zone_fits(r),
            base + 255 <= u32::MAX,
            i <= n,
            rects@ == pie_rects(r, base, ks@).take(i as int),
            forall|k: int| 0 <= k < rects@.len() ==> rect_fits(#[trigger] rects@[k]),
        decreases n - i,
    {
        assert(i % r.2 < r.2 && i / r.2 < r.3) by (nonlinear_arith)
            requires
                i < r.2 * r.3,
        ;
        let rect: Rect = (r.0 + i % r.2, r.1 + i / r.2, 1, 1, c(base, ks[i as usize] as u32));
        rects.push(rect);
        assert(rects@ =~= pie_rects(r, base, ks@).take(i + 1));
        i += 1;
    }
    assert(rects@ =~= pie_rects(r, base, ks@));
    paint_rects(g, &rects);
}

/// What zone `(zx, zy)` of the torture canvas paints.
pub open spec fn zone_rects(zx: u32, zy: u32, pie: Seq<u8>) -> Seq<Rect> {
    let r = zone_rect_spec(zx, zy);
    let base = (zx * 5 + zy * 3) as u32;
    if zy == 0 || (zx == 0 && zy == 1) {
        grid_rects(r, 32, grid_color(base))
    } else if zx == 1 && zy == 1 {
        stripe_rects(r, base, 8, true)
    } else if zx == 2 && zy == 1 {
        stripe_rects(r, base, 8, false)
    } else if zx == 0 && zy == 2 {
        rings_from(r, base, 0, 0)
    } else if zx == 1 && zy == 2 {
        pie_rects(r, base, pie)
    } else if zx == 2 && zy == 2 {
        serpentine_rects(r, base)
    } else if zx == 0 && zy == 3 {
        edge_rects(r, base)
    } else if zx == 1 && zy == 3 {
        grid_rects(r, 128, reuse_color(base))
    } else {
        fragment_rects(r, base)
    }
}

/// The zones `0..k`, in raster order of zones.
pub open spec fn zones_upto(k: nat, pie: Seq<u8>) -> Seq<Rect>
    decreases k,
{
    if k == 0 {
        Seq::empty()
    } else {
        zones_upto((k - 1) as nat, pie) + zone_rects(((k - 1) % COLS as int) as u32, ((k - 1) / COLS as int) as u32, pie)
    }
}

/// The frame between zones; it stays off the canvas border.
pub open spec fn frame_rects() -> Seq<Rect> {
    seq![
        (1020u32, 0u32, FRAME_W, T_H, FRAME),
        (2044u32, 0u32, FRAME_W, T_H, FRAME),
        (0u32, 1020u32, T_W, FRAME_W, FRAME),
        (0u32, 2044u32, T_W, FRAME_W, FRAME),
        (0u32, 3068u32, T_W, FRAME_W, FRAME),
    ]
}

/// The torture canvas: the twelve zones painted on a frame-coloured canvas,
/// then the frame between them.
pub open spec fn torture_spec(pie: Seq<u8>) -> Seq<u8> {
    painted_rects(blank(T_W as int, T_H as int), T_W as int, zones_upto(12, pie) + frame_rects())
}

/// Painting `a` and then `b` is painting `a + b`.
pub proof fn lemma_painted_concat(idx: Seq<u8>, w: int, a: Seq<Rect>, b: Seq<Rect>)
    ensures
        painted_rects(painted_rects(idx, w, a), w, b) == painted_rects(idx, w, a + b),
    decreases b.len(),
{
    if b.len() > 0 {
        lemma_painted_concat(idx, w, a, b.drop_last());
        assert((a + b).drop_last() =~= a + b.drop_last());
        assert((a + b).last() == b.last());
    } else {
        assert(a + b =~= a);
    }
}

/// The number of pixels of the pie zone, row-major.
pub open spec fn pie_len() -> int {
    let r = zone_rect_spec(1, 2);
    r.2 * r.3
}

/// The torture canvas: twelve stress zones (dense grids, thin stripes, rings,
/// radial wedges, a serpentine corridor, diagonal colour reuse, fragments of
/// extreme aspect, features on the canvas border) separated by an 8px frame.
/// `pie` holds the pie zone's colour choices, row-major.
pub fn torture_canvas(pie: &[u8]) -> (g: Canvas)
    requires
        pie@.len() == pie_len(),
    ensures
        g.wf(),
        g.width == T_W,
        g.height == T_H,
        g.idx@ == torture_spec(pie@),
{
    let mut g = Canvas::new(T_W, T_H);
    let ghost w = T_W as int;
    let ghost b = blank(T_W as int, T_H as int);
    assert(g.idx@ =~= b);
    let mut zy: u32 = 0;
    while zy < ROWS
        invariant
            zy <= ROWS,
            w == T_W as int,
            b == blank(T_W as int, T_H as int),
            pie@.len() == pie_len(),
            g.wf(),
            g.width == T_W,
            g.height == T_H,
            g.idx@ == painted_rects(b, w, zones_upto((zy * COLS) as nat, pie@)),
        decreases ROWS - zy,
    {
        let mut zx: u32 = 0;
        while zx < COLS
            invariant
                zx <= COLS,
                zy < ROWS,
                w == T_W as int,
                b == blank(T_W as int, T_H as int),
                pie@.len() == pie_len(),
                g.wf(),
                g.width == T_W,
                g.height == T_H,
                g.idx@ == painted_rects(b, w, zones_upto((zy * COLS + zx) as nat, pie@)),
            decreases COLS - zx,
        {
            let r = zone_rect(zx, zy);
            let base = zx * 5 + zy * 3;
            let ghost before = g.idx@;
            let ghost zr = zone_rects(zx, zy, pie@);
            assert(r.2 * r.3 <= 1024 * 1024) by (nonlinear_arith)
                requires
                    r.2 <= 1024,
                    r.3 <= 1024,
            ;
            assert(base == (zx * 5 + zy * 3) as u32);
            if zy == 0 || (zx == 0 && zy == 1) {
                zone_grid(&mut g, r, base, 32);
                assert(g.idx@ == painted_rects(before, w, zr));
            } else if zx == 1 && zy == 1 {
                zone_stripes(&mut g, r, base, 8, true);
                assert(g.idx@ == painted_rects(before, w, zr));
            } else if zx == 2 && zy == 1 {
                zone_stripes(&mut g, r, base, 8, false);
                assert(g.idx@ == painted_rects(before, w, zr));
            } else if zx == 0 && zy == 2 {
                zone_rings(&mut g, r, base);
                assert(g.idx@ == painted_rects(before, w, zr));
            } else if zx == 1 && zy == 2 {
                zone_pie(&mut g, r, base, pie);
                assert(g.idx@ == painted_rects(before, w, zr));
            } else if zx == 2 && zy == 2 {
                zone_serpentine(&mut g, r, base);
                assert(g.idx@ == painted_rects(before, w, zr));
            } else if zx == 0 && zy == 3 {
                zone_edges(&mut g, r, base);
                assert(g.idx@ == painted_rects(before, w, zr));
            } else if zx == 1 && zy == 3 {
                zone_reuse(&mut g, r, base, 128);
                assert(g.idx@ == painted_rects(before, w, zr));
            } else {
                zone_fragments(&mut g, r, base);
                assert(g.idx@ == painted_rects(before, w, zr));
            }
            proof {
                let k = (zy * COLS + zx) as nat;
                lemma_painted_concat(b, w, zones_upto(k, pie@), zone_rects(zx, zy, pie@));
                assert(((k + 1 - 1) % COLS as int) as u32 == zx && ((k + 1 - 1) / COLS as int) as u32 == zy);
                assert(zones_upto(k + 1, pie@) == zones_upto(k, pie@) + zone_rects(zx, zy, pie@));
            }
            zx += 1;
        }
        zy += 1;
    }
    let half = FRAME_W / 2;
    let first = ZONE - half;
    let second = 2 * ZONE - half;
    let third = 3 * ZONE - half;
    let frames: Vec<Rect> = vec![
        (first, 0, FRAME_W, T_H, FRAME),
        (second, 0, FRAME_W, T_H, FRAME),
        (0, first, T_W, FRAME_W, FRAME),
        (0, second, T_W, FRAME_W, FRAME),
        (0, third, T_W, FRAME_W, FRAME),
    ];
    assert(frames@ =~= frame_rects());
    let ghost before = g.idx@;
    paint_rects(&mut g, &frames);
    proof {
        lemma_painted_concat(b, w, zones_upto(12, pie@), frame_rects());
    }
    g
}

/// Every ring colour is a zone colour.
proof fn lemma_ring_colors_below_16(r: Zone, base: u32, i: int, inset: int)
    ensures
        forall|k: int| 0 <= k < rings_from(r, base, i, inset).len() ==> (#[trigger] rings_from(r, base, i, inset)[k]).4 < 16,
    decreases r.2 - 2 * inset,
{
    let side_w = r.2 - 2 * inset;
    let side_h = r.3 - 2 * inset;
    if !(side_w <= 96 || side_h <= 96 || inset < 0) {
        lemma_ring_colors_below_16(r, base, i + 1, inset + ring_step(i));
        let head = seq![((r.0 + inset) as u32, (r.1 + inset) as u32, side_w as u32, side_h as u32, c_spec(base, i as u32))];
        let tail = rings_from(r, base, i + 1, inset + ring_step(i));
        assert forall|k: int| 0 <= k < (head + tail).len() implies (#[trigger] (head + tail)[k]).4 < 16 by {
            if k > 0 {
                assert((head + tail)[k] == tail[k - 1]);
            }
        }
    }
}

/// Every zone of the torture canvas paints colours below 16.
proof fn lemma_zones_below_16(k: nat, pie: Seq<u8>)
    ensures
        forall|j: int| 0 <= j < zones_upto(k, pie).len() ==> (#[trigger] zones_upto(k, pie)[j]).4 < 16,
    decreases k,
{
    if k > 0 {
        lemma_zones_below_16((k - 1) as nat, pie);
        let zx = ((k - 1) % COLS as int) as u32;
        let zy = ((k - 1) / COLS as int) as u32;
        let r = zone_rect_spec(zx, zy);
        let base = (zx * 5 + zy * 3) as u32;
        lemma_ring_colors_below_16(r, base, 0, 0);
        let head = zones_upto((k - 1) as nat, pie);
        let zr = zone_rects(zx, zy, pie);
        assert forall|j: int| 0 <= j < zr.len() implies (#[trigger] zr[j]).4 < 16 by {
            if zx == 0 && zy == 3 {
                assert(edge_rects(r, base)[j].4 < 16);
            }
            if zx == 2 && zy == 2 {
                if j >= 2 {
                    assert(serpentine_rects(r, base)[j].4 == c_spec(base, 0));
                }
            }
            if zx == 2 && zy == 3 {
                if j >= 1 {
                    assert(fragment_rects(r, base)[j].4 < 16);
                }
            }
        }
        assert forall|j: int| 0 <= j < (head + zr).len() implies (#[trigger] (head + zr)[j]).4 < 16 by {
            if j >= head.len() {
                assert((head + zr)[j] == zr[j - head.len()]);
            } else {
                assert((head + zr)[j] == head[j]);
            }
        }
    }
}

/// A word about the torture asset, kept in its `meta.json`.
pub const TORTURE_NOTES: &'static str = "由 `cargo xtask gen-torture` 決定性產生，不是繪師交付。12 個壓力區塊（密集格線、細長條、同心環、放射楔形、梳齒迴廊、對角同色重用、極端長寬比碎片、貼畫布邊特徵），所有特徵最短邊 ≥8px 且對齊偶數邊界，降採樣＋膨脹後仍存活。3:4 且無 shade，跑 has_shade = false 那條路徑。category 取 mandala 只因幾何圖形最接近，不代表難度分級。";

/// The torture asset: the torture canvas's boundaries as line art and its
/// `PERM` colours as seeds, without shade. It goes to long-term storage, so it
/// is compressed hard.
pub fn torture_01(pie: &[u8]) -> (a: Asset)
    requires
        pie@.len() == pie_len(),
    ensures
        a.id@ == "torture-01"@,
        a.title@ == "Torture Test 01"@,
        a.category@ == "mandala"@,
        a.notes@ == TORTURE_NOTES@,
        a.width == T_W,
        a.height == T_H,
        a.lineart@ == lineart_spec(torture_spec(pie@), T_W as int, T_H as int),
        canvas_seeds(torture_spec(pie@), T_W as int, T_H as int, a.seeds@),
        a.shade is None,
        a.seeds_icc is None,
        a.compression == Compression::High,
{
    let canvas = torture_canvas(pie);
    proof {
        let b = blank(T_W as int, T_H as int);
        lemma_zones_below_16(12, pie@);
        let all = zones_upto(12, pie@) + frame_rects();
        assert forall|j: int| 0 <= j < all.len() implies (#[trigger] all[j]).4 < 16 by {
            if j < zones_upto(12, pie@).len() {
                assert(all[j] == zones_upto(12, pie@)[j]);
            }
        }
        lemma_painted_below_16(b, T_W as int, all);
    }
    let lineart = canvas.lineart_rgba();
    let seeds = canvas.seeds_rgba();
    Asset {
        id: String::from_str("torture-01"),
        title: String::from_str("Torture Test 01"),
        category: String::from_str("mandala"),
        notes: String::from_str(TORTURE_NOTES),
        width: T_W,
        height: T_H,
        lineart,
        seeds,
        shade: None,
        seeds_icc: None,
        compression: Compression::High,
    }
}

/// A compliant synthetic asset: a coarse grid, its boundaries as line art, and
/// `PERM` colours; with `has_shade`, a soft gradient shade.
pub fn valid(id: &str, width: u32, height: u32, cell: u32, has_shade: bool) -> (a: Asset)
    requires
        cell > 0,
        4 * (width * height) <= u32::MAX,
        width < 0x8000_0000,
        height < 0x8000_0000,
        3 * width + 5 * height <= u32::MAX,
        has_shade ==> 100 * height <= u32::MAX,
    ensures
        a.id@ == id@,
        a.title@ == "Synthetic "@ + id@,
        a.category@ == "mandala"@,
        a.notes@ == "baker::synth 產生的合成素材，不是繪師交付。"@,
        a.width == width,
        a.height == height,
        a.lineart@ == lineart_spec(grid_idx(width, height, cell), width as int, height as int),
        canvas_seeds(grid_idx(width, height, cell), width as int, height as int, a.seeds@),
        a.shade matches Some(s) ==> has_shade && s@ == shade_gradient(width as int, height as int),
        a.shade is None ==> !has_shade,
        a.seeds_icc is None,
        a.compression == Compression::Fast,
{
    let mut canvas = Canvas::new(width, height);
    assert(canvas.idx@ =~= blank(width as int, height as int));
    zone_grid(&mut canvas, (0, 0, width, height), 0, cell);
    proof {
        lemma_grid_colors_below_16((0u32, 0u32, width, height), cell, 0);
        lemma_painted_below_16(blank(width as int, height as int), width as int, grid_rects((0u32, 0u32, width, height), cell, grid_color(0)));
    }
    let shade = if has_shade {
        let n = width * height;
        let mut buf: Vec<u8> = vec![255u8; (4 * n) as usize];
        let mut y: u32 = 0;
        while y < height
            invariant
                has_shade ==> 100 * height <= u32::MAX,
                has_shade,
                n == width * height,
                4 * n <= u32::MAX,
                y <= height,
                buf@.len() == 4 * n,
                forall|i: int| 0 <= i < 4 * n ==> #[trigger] buf@[i] == (if i % 4 == 3 || i / 4 >= y * width { 255u8 } else {
                    shade_gradient(width as int, height as int)[i]
                }),
            decreases height - y,
        {
            assert((y * 100) / (height as int) < 100) by (nonlinear_arith)
                requires
                    y < height,
            ;
            let v = 255 - (y * 100 / height) as u8;
            let mut x: u32 = 0;
            while x < width
                invariant
                    100 * height <= u32::MAX,
                    n == width * height,
                    4 * n <= u32::MAX,
                    y < height,
                    x <= width,
                    v == 255 - (y * 100) / (height as int),
                    buf@.len() == 4 * n,
                    forall|i: int| 0 <= i < 4 * n ==> #[trigger] buf@[i] == (if i % 4 == 3 || i / 4 >= y * width + x { 255u8 } else {
                        shade_gradient(width as int, height as int)[i]
                    }),
                decreases width - x,
            {
                assert(y * width + x < n) by (nonlinear_arith)
                    requires
                        x < width,
                        y < height,
                        n == width * height,
                ;
                let i = ((y * width + x) * 4) as usize;
                buf.set(i, v);
                buf.set(i + 1, v);
                buf.set(i + 2, v);
                proof {
                    assert forall|j: int| 0 <= j < 4 * n implies #[trigger] buf@[j] == (if j % 4 == 3 || j / 4 >= y * width + x + 1 { 255u8 } else {
                        shade_gradient(width as int, height as int)[j]
                    }) by {
                        if i <= j < i + 4 {
                            assert(j / 4 == y * width + x);
                            assert((j / 4) / (width as int) == y) by (nonlinear_arith)
                                requires
                                    j / 4 == y * width + x,
                                    x < width,
                            ;
                        }
                    }
                }
                x += 1;
            }
            assert(y * width + width == (y + 1) * width) by (nonlinear_arith);
            y += 1;
        }
        assert(height * width == n) by (nonlinear_arith)
            requires
                n == width * height,
        ;
        assert(buf@ =~= shade_gradient(width as int, height as int));
        Some(buf)
    } else {
        None
    };
    let mut title = String::from_str("Synthetic ");
    title.append(id);
    let lineart = canvas.lineart_rgba();
    let seeds = canvas.seeds_rgba();
    Asset {
        id: String::from_str(id),
        title,
        category: String::from_str("mandala"),
        notes: String::from_str("baker::synth 產生的合成素材，不是繪師交付。"),
        width,
        height,
        lineart,
        seeds,
        shade,
        seeds_icc: None,
        compression: Compression::Fast,
    }
}

/// The negative fixtures: each breaks exactly one rule.
#[derive(Debug, Clone, Copy, PartialEq, Eq, Structural)]
pub enum Negative {
    /// A gap in the line art: two seeds fall into one closed area.
    SeedCollision,
    /// A closed area without a seed: the artist missed a dot.
    OrphanArea,
    /// A seed too small to give a reliable mode colour.
    SeedTooSmall,
    /// A seed on the line, where flood fill cannot start.
    SeedOnLine,
    /// Line art delivered on white: every pixel is opaque, all of it is line.
    LineCoverage,
    /// A Display P3 profile.
    DisplayP3,
}

/// A fixture: the asset, the code the bake must report, and the master
/// coordinates planted in it, which the reported coordinates must hit.
pub struct Fixture {
    pub asset: Asset,
    pub expect: &'static str,
    pub planted: Vec<(u32, u32)>,
}

/// Fixture canvas: full master size, so the canvas check does not fire first.
pub const F_W: u32 = 3072;
pub const F_H: u32 = 4096;
/// Cell edge of the fixture grid: 12 × 16 = 192 closed areas.
pub const F_CELL: u32 = 256;

/// The fixture cell `(cx, cy)` as `(x, y, w, h)`.
pub fn cell_rect(cx: u32, cy: u32) -> (r: Zone)
    requires
        cx < 12,
        cy < 16,
    ensures
        r == ((cx * F_CELL) as u32, (cy * F_CELL) as u32, F_CELL, F_CELL),
{
    (cx * F_CELL, cy * F_CELL, F_CELL, F_CELL)
}

/// Alpha of pixel `(x, y)` of a fixture-sized RGBA buffer.
pub open spec fn f_alpha(rgba: Seq<u8>, x: int, y: int) -> u8 {
    rgba[(y * F_W + x) * 4 + 3]
}

/// The first pixel, row by row from offset `k` on, of zone `r` whose line-art
/// alpha is below the default threshold.
pub open spec fn free_from(lineart: Seq<u8>, r: Zone, k: int) -> Option<(u32, u32)>
    decreases r.2 * r.3 - k,
{
    if k < 0 || k >= r.2 * r.3 {
        None
    } else {
        let x = r.0 + k % (r.2 as int);
        let y = r.1 + k / (r.2 as int);
        if f_alpha(lineart, x, y) < DEFAULT_LINE_THRESHOLD {
            Some((x as u32, y as u32))
        } else {
            free_from(lineart, r, k + 1)
        }
    }
}

/// A zone that lies inside the fixture canvas.
pub open spec fn in_fixture(r: Zone) -> bool {
    r.0 + r.2 <= F_W && r.1 + r.3 <= F_H
}

/// The first non-line pixel of `r`, in raster order.
pub fn first_free(lineart: &[u8], r: Zone) -> (p: Option<(u32, u32)>)
    requires
        lineart@.len() == 4 * F_W * F_H,
        in_fixture(r),
    ensures
        p == free_from(lineart@, r, 0),
{
    let (x0, y0, w, h) = r;
    assert(w * h <= F_W * F_H) by (nonlinear_arith)
        requires
            w <= F_W,
            h <= F_H,
    ;
    let total = w * h;
    let mut k: u32 = 0;
    while k < total
        invariant
            lineart@.len() == 4 * F_W * F_H,
            in_fixture(r),
            r == (x0, y0, w, h),
            total == w * h,
            k <= total,
            free_from(lineart@, r, 0) == free_from(lineart@, r, k as int),
        decreases total - k,
    {
        assert(k % w < w && k / w < h) by (nonlinear_arith)
            requires
                k < w * h,
        ;
        let (x, y) = (x0 + k % w, y0 + k / w);
        assert(x < F_W && y < F_H) by (nonlinear_arith)
            requires
                k < w * h,
                x == x0 + k % w,
                y == y0 + k / w,
                x0 + w <= F_W,
                y0 + h <= F_H,
        ;
        assert((y * F_W + x) * 4 + 3 < lineart@.len()) by (nonlinear_arith)
            requires
                x < F_W,
                y < F_H,
                lineart@.len() == 4 * F_W * F_H,
        ;
        if lineart[((y * F_W + x) * 4 + 3) as usize] < DEFAULT_LINE_THRESHOLD {
            return Some((x, y));
        }
        k += 1;
    }
    None
}

/// Point `a` lies in zone `r`.
pub open spec fn zone_has(r: Zone, a: (u32, u32)) -> bool {
    r.0 <= a.0 < r.0 + r.2 && r.1 <= a.1 < r.1 + r.3
}

/// Anchors of `seeds` that lie in one of `rects`, in order.
pub open spec fn anchors_within(seeds: Seq<Seed>, rects: Seq<Zone>) -> Seq<(u32, u32)>
    decreases seeds.len(),
{
    if seeds.len() == 0 {
        Seq::empty()
    } else {
        let a = seeds.last().anchor;
        let rest = anchors_within(seeds.drop_last(), rects);
        if exists|k: int| 0 <= k < rects.len() && zone_has(#[trigger] rects[k], a) {
            rest.push(a)
        } else {
            rest
        }
    }
}

/// The anchors, in reading order, of the fixture seeds that lie in one of `rects`.
pub fn anchors_in(seeds: &[u8], rects: &[Zone]) -> (out: Vec<(u32, u32)>)
    requires
        seeds@.len() >= 4 * F_W * F_H,
    ensures
        exists|list: Seq<Seed>| #[trigger] reads_as(seeds@, F_W, F_H, list) && out@ == anchors_within(list, rects@),
{
    let list = read(seeds, F_W, F_H);
    let mut out: Vec<(u32, u32)> = Vec::new();
    let mut i: usize = 0;
    while i < list.len()
        invariant
            i <= list@.len(),
            out@ == anchors_within(list@.take(i as int), rects@),
        decreases list@.len() - i,
    {
        let a = list[i].anchor;
        let mut hit = false;
        let mut k: usize = 0;
        while k < rects.len()
            invariant
                k <= rects@.len(),
                hit == exists|j: int| 0 <= j < k && zone_has(#[trigger] rects@[j], a),
            decreases rects@.len() - k,
        {
            let (x0, y0, w, h) = rects[k];
            if a.0 >= x0 && (a.0 as u64) < x0 as u64 + w as u64 && a.1 >= y0 && (a.1 as u64) < y0 as u64 + h as u64 {
                hit = true;
            }
            k += 1;
        }
        assert(list@.take(i as int + 1).drop_last() =~= list@.take(i as int));
        if hit {
            out.push(a);
        }
        i += 1;
    }
    assert(list@.take(list@.len() as int) =~= list@);
    out
}

/// `seeds` with the alpha of every pixel in fixture zone `r` cleared.
pub open spec fn cleared(seeds: Seq<u8>, r: Zone) -> Seq<u8> {
    Seq::new(seeds.len(), |i: int| if i % 4 == 3 && in_rect(F_W as int, i / 4, r.0 as int, r.1 as int, r.2 as int, r.3 as int) {
        0u8
    } else {
        seeds[i]
    })
}

/// `seeds` with a solid dot of the planted colour over `(x, y, w, h)`.
pub open spec fn dotted(seeds: Seq<u8>, r: Zone) -> Seq<u8> {
    Seq::new(seeds.len(), |i: int| if in_rect(F_W as int, i / 4, r.0 as int, r.1 as int, r.2 as int, r.3 as int) {
        if i % 4 == 0 { 7u8 } else if i % 4 == 1 { 200u8 } else if i % 4 == 2 { 90u8 } else { 255u8 }
    } else {
        seeds[i]
    })
}

/// The line art with the gap between cells `(0, 0)` and `(1, 0)` opened.
pub open spec fn with_gap(lineart: Seq<u8>) -> Seq<u8> {
    Seq::new(lineart.len(), |i: int| if i % 4 == 3 && 64 <= i / 4 / (F_W as int) < 192
        && ((i / 4) % (F_W as int) == F_CELL - 1 || (i / 4) % (F_W as int) == F_CELL) {
        0u8
    } else {
        lineart[i]
    })
}

/// The line art with every alpha opaque: line art delivered on white.
pub open spec fn all_opaque(lineart: Seq<u8>) -> Seq<u8> {
    Seq::new(lineart.len(), |i: int| if i % 4 == 3 { 255u8 } else { lineart[i] })
}

/// Clears the alpha of every pixel of fixture zone `r`.
fn clear_cell(seeds: &mut Vec<u8>, r: Zone)
    requires
        old(seeds)@.len() == 4 * F_W * F_H,
        in_fixture(r),
    ensures
        final(seeds)@ == cleared(old(seeds)@, r),
{
    let (x0, y0, w, h) = r;
    let ghost s0 = seeds@;
    let mut y = y0;
    while y < y0 + h
        invariant
            seeds@.len() == 4 * F_W * F_H,
            s0.len() == 4 * F_W * F_H,
            in_fixture(r),
            r == (x0, y0, w, h),
            y0 <= y <= y0 + h,
            forall|i: int| 0 <= i < s0.len() ==> #[trigger] seeds@[i] == (if i % 4 == 3 && in_rect(F_W as int, i / 4, x0 as int, y0 as int, w as int, (y - y0) as int) {
                0u8
            } else {
                s0[i]
            }),
        decreases y0 + h - y,
    {
        let mut x = x0;
        while x < x0 + w
            invariant
                seeds@.len() == 4 * F_W * F_H,
                s0.len() == 4 * F_W * F_H,
                in_fixture(r),
                r == (x0, y0, w, h),
                y0 <= y < y0 + h,
                x0 <= x <= x0 + w,
                forall|i: int| 0 <= i < s0.len() ==> #[trigger] seeds@[i] == (if i % 4 == 3 && (in_rect(F_W as int, i / 4, x0 as int, y0 as int, w as int, (y - y0) as int)
                    || (i / 4 / (F_W as int) == y && x0 <= (i / 4) % (F_W as int) < x)) {
                    0u8
                } else {
                    s0[i]
                }),
            decreases x0 + w - x,
        {
            let p = y * F_W + x;
            assert(p * 4 + 3 < seeds@.len()) by (nonlinear_arith)
                requires
                    p == y * F_W + x,
                    x < F_W,
                    y < F_H,
                    seeds@.len() == 4 * F_W * F_H,
            ;
            seeds.set((p * 4 + 3) as usize, 0);
            proof {
                assert forall|i: int| 0 <= i < s0.len() implies #[trigger] seeds@[i] == (if i % 4 == 3 && (in_rect(F_W as int, i / 4, x0 as int, y0 as int, w as int, (y - y0) as int)
                    || (i / 4 / (F_W as int) == y && x0 <= (i / 4) % (F_W as int) < x + 1)) {
                    0u8
                } else {
                    s0[i]
                }) by {
                    let q = i / 4;
                    assert(q == (q / (F_W as int)) * (F_W as int) + q % (F_W as int));
                    if i == p * 4 + 3 {
                        assert(q == p);
                        assert(q / (F_W as int) == y && q % (F_W as int) == x) by (nonlinear_arith)
                            requires
                                q == y * F_W + x,
                                x < F_W,
                        ;
                    }
                }
            }
            x += 1;
        }
        y += 1;
    }
    assert(seeds@ =~= cleared(s0, r));
}

/// Paints a solid dot of the planted colour over fixture zone `r`.
fn dot(seeds: &mut Vec<u8>, r: Zone)
    requires
        old(seeds)@.len() == 4 * F_W * F_H,
        in_fixture(r),
    ensures
        final(seeds)@ == dotted(old(seeds)@, r),
{
    let (x0, y0, w, h) = r;
    let ghost s0 = seeds@;
    let mut y = y0;
    while y < y0 + h
        invariant
            seeds@.len() == 4 * F_W * F_H,
            s0.len() == 4 * F_W * F_H,
            in_fixture(r),
            r == (x0, y0, w, h),
            y0 <= y <= y0 + h,
            forall|i: int| 0 <= i < s0.len() ==> #[trigger] seeds@[i] == (if in_rect(F_W as int, i / 4, x0 as int, y0 as int, w as int, (y - y0) as int) {
                if i % 4 == 0 { 7u8 } else if i % 4 == 1 { 200u8 } else if i % 4 == 2 { 90u8 } else { 255u8 }
            } else {
                s0[i]
            }),
        decreases y0 + h - y,
    {
        let mut x = x0;
        while x < x0 + w
            invariant
                seeds@.len() == 4 * F_W * F_H,
                s0.len() == 4 * F_W * F_H,
                in_fixture(r),
                r == (x0, y0, w, h),
                y0 <= y < y0 + h,
                x0 <= x <= x0 + w,
                forall|i: int| 0 <= i < s0.len() ==> #[trigger] seeds@[i] == (if in_rect(F_W as int, i / 4, x0 as int, y0 as int, w as int, (y - y0) as int)
                    || (i / 4 / (F_W as int) == y && x0 <= (i / 4) % (F_W as int) < x) {
                    if i % 4 == 0 { 7u8 } else if i % 4 == 1 { 200u8 } else if i % 4 == 2 { 90u8 } else { 255u8 }
                } else {
                    s0[i]
                }),
            decreases x0 + w - x,
        {
            let p = y * F_W + x;
            assert(p * 4 + 3 < seeds@.len()) by (nonlinear_arith)
                requires
                    p == y * F_W + x,
                    x < F_W,
                    y < F_H,
                    seeds@.len() == 4 * F_W * F_H,
            ;
            let i0 = (p * 4) as usize;
            seeds.set(i0, 7);
            seeds.set(i0 + 1, 200);
            seeds.set(i0 + 2, 90);
            seeds.set(i0 + 3, 255);
            proof {
                assert forall|i: int| 0 <= i < s0.len() implies #[trigger] seeds@[i] == (if in_rect(F_W as int, i / 4, x0 as int, y0 as int, w as int, (y - y0) as int)
                    || (i / 4 / (F_W as int) == y && x0 <= (i / 4) % (F_W as int) < x + 1) {
                    if i % 4 == 0 { 7u8 } else if i % 4 == 1 { 200u8 } else if i % 4 == 2 { 90u8 } else { 255u8 }
                } else {
                    s0[i]
                }) by {
                    let q = i / 4;
                    assert(q == (q / (F_W as int)) * (F_W as int) + q % (F_W as int));
                    if p * 4 <= i < p * 4 + 4 {
                        assert(q == p);
                        assert(q / (F_W as int) == y && q % (F_W as int) == x) by (nonlinear_arith)
                            requires
                                q == y * F_W + x,
                                x < F_W,
                        ;
                    }
                }
            }
            x += 1;
        }
        y += 1;
    }
    assert(seeds@ =~= dotted(s0, r));
}

/// Opens the gap: the line between cells `(0, 0)` and `(1, 0)` loses rows 64 to 191.
fn open_gap(lineart: &mut Vec<u8>)
    requires
        old(lineart)@.len() == 4 * F_W * F_H,
    ensures
        final(lineart)@ == with_gap(old(lineart)@),
{
    let ghost l0 = lineart@;
    let mut y: u32 = 64;
    while y < 192
        invariant
            64 <= y <= 192,
            lineart@.len() == 4 * F_W * F_H,
            l0.len() == 4 * F_W * F_H,
            forall|i: int| 0 <= i < l0.len() ==> #[trigger] lineart@[i] == (if i % 4 == 3 && 64 <= i / 4 / (F_W as int) < y
                && ((i / 4) % (F_W as int) == F_CELL - 1 || (i / 4) % (F_W as int) == F_CELL) {
                0u8
            } else {
                l0[i]
            }),
        decreases 192 - y,
    {
        let a = ((y * F_W + F_CELL - 1) * 4 + 3) as usize;
        let b = ((y * F_W + F_CELL) * 4 + 3) as usize;
        lineart.set(a, 0);
        lineart.set(b, 0);
        proof {
            assert forall|i: int| 0 <= i < l0.len() implies #[trigger] lineart@[i] == (if i % 4 == 3 && 64 <= i / 4 / (F_W as int) < y + 1
                && ((i / 4) % (F_W as int) == F_CELL - 1 || (i / 4) % (F_W as int) == F_CELL) {
                0u8
            } else {
                l0[i]
            }) by {
                let q = i / 4;
                assert(q == (q / (F_W as int)) * (F_W as int) + q % (F_W as int));
                if i == a || i == b {
                    assert(q / (F_W as int) == y);
                }
            }
        }
        y += 1;
    }
    assert(lineart@ =~= with_gap(l0));
}

/// Makes every pixel of the line art opaque.
fn make_opaque(lineart: &mut Vec<u8>)
    ensures
        final(lineart)@ == all_opaque(old(lineart)@),
{
    let ghost l0 = lineart@;
    let n = lineart.len() / 4;
    let mut p: usize = 0;
    while p < n
        invariant
            n == l0.len() / 4,
            lineart@.len() == l0.len(),
            l0.len() == old(lineart)@.len(),
            lineart.len() == l0.len(),
            p <= n,
            forall|i: int| 0 <= i < l0.len() ==> #[trigger] lineart@[i] == (if i % 4 == 3 && i / 4 < p { 255u8 } else { l0[i] }),
        decreases n - p,
    {
        assert(4 * p + 3 < l0.len()) by (nonlinear_arith)
            requires
                p < n,
                n == l0.len() / 4,
        ;
        lineart.set(4 * p + 3, 255);
        p += 1;
    }
    assert forall|i: int| 0 <= i < l0.len() && i % 4 == 3 implies #[trigger] (i / 4) < n by {}
    assert(lineart@ =~= all_opaque(l0));
}

pub open spec fn fixture_id(kind: Negative) -> Seq<char> {
    match kind {
        Negative::SeedCollision => "fixture-seed-collision"@,
        Negative::OrphanArea => "fixture-orphan-area"@,
        Negative::SeedTooSmall => "fixture-seed-too-small"@,
        Negative::SeedOnLine => "fixture-seed-on-line"@,
        Negative::LineCoverage => "fixture-line-coverage"@,
        Negative::DisplayP3 => "fixture-display-p3"@,
    }
}

pub open spec fn fixture_code(kind: Negative) -> &'static str {
    match kind {
        Negative::SeedCollision => code::SEED_COLLISION,
        Negative::OrphanArea => code::ORPHAN_AREA,
        Negative::SeedTooSmall => code::SEED_TOO_SMALL,
        Negative::SeedOnLine => code::SEED_ON_LINE,
        Negative::LineCoverage => code::LINE_COVERAGE,
        Negative::DisplayP3 => code::COLOR_SPACE,
    }
}

/// Fixture cell `(cx, cy)`.
pub open spec fn f_cell(cx: u32, cy: u32) -> Zone {
    ((cx * F_CELL) as u32, (cy * F_CELL) as u32, F_CELL, F_CELL)
}

/// The grid canvas every fixture starts from.
pub open spec fn fixture_idx() -> Seq<u8> {
    grid_idx(F_W, F_H, F_CELL)
}

/// The seeds of a fixture, from the seeds `s0` of the unbroken grid.
pub open spec fn fixture_seeds(kind: Negative, s0: Seq<u8>) -> Seq<u8> {
    match kind {
        Negative::OrphanArea => cleared(s0, f_cell(5, 5)),
        Negative::SeedTooSmall => dotted(cleared(s0, f_cell(3, 3)), (776u32, 776u32, 2u32, 2u32)),
        Negative::SeedOnLine => dotted(cleared(s0, f_cell(7, 7)), (1791u32, 1900u32, 2u32, 1u32)),
        _ => s0,
    }
}

/// The line art of a fixture, from the line art `l0` of the unbroken grid.
pub open spec fn fixture_lineart(kind: Negative, l0: Seq<u8>) -> Seq<u8> {
    match kind {
        Negative::SeedCollision => with_gap(l0),
        Negative::LineCoverage => all_opaque(l0),
        _ => l0,
    }
}

/// `Some(p)` as a one-point list, `None` as the empty list.
pub open spec fn opt_points(p: Option<(u32, u32)>) -> Seq<(u32, u32)> {
    match p {
        Some(a) => seq![a],
        None => Seq::empty(),
    }
}

/// A fixture that breaks exactly the rule of `kind`, on a full-size grid of
/// 256-pixel cells, with the coordinates where the breakage was planted.
pub fn negative(kind: Negative) -> (f: Fixture)
    ensures
        f.asset.id@ == fixture_id(kind),
        f.asset.title@ == "Fixture "@ + fixture_id(kind),
        f.asset.category@ == "mandala"@,
        f.asset.notes@ == "baker::synth::negative 產生的預期拒收素材。"@,
        f.asset.width == F_W,
        f.asset.height == F_H,
        f.asset.shade is None,
        f.asset.compression == Compression::Fast,
        kind == Negative::DisplayP3 ==> (f.asset.seeds_icc matches Some(icc) && icc@ == synth_profile_spec(D65, P3_R, P3_G, P3_B)),
        kind != Negative::DisplayP3 ==> f.asset.seeds_icc is None,
        f.expect == fixture_code(kind),
        f.asset.lineart@ == fixture_lineart(kind, lineart_spec(fixture_idx(), F_W as int, F_H as int)),
        exists|s0: Seq<u8>| #[trigger] canvas_seeds(fixture_idx(), F_W as int, F_H as int, s0) && {
            &&& f.asset.seeds@ == fixture_seeds(kind, s0)
            &&& kind == Negative::SeedCollision ==> exists|list: Seq<Seed>| #[trigger] reads_as(s0, F_W, F_H, list)
                && f.planted@ == anchors_within(list, seq![f_cell(0, 0), f_cell(1, 0)])
            &&& kind == Negative::OrphanArea ==> f.planted@ == opt_points(free_from(lineart_spec(fixture_idx(), F_W as int, F_H as int), f_cell(5, 5), 0))
            &&& kind == Negative::SeedTooSmall ==> f.planted@ == seq![(776u32, 776u32)]
            &&& kind == Negative::SeedOnLine ==> f.planted@ == seq![(1791u32, 1900u32)]
            &&& (kind == Negative::LineCoverage || kind == Negative::DisplayP3) ==> f.planted@.len() == 0
        },
{
    let id = match kind {
        Negative::SeedCollision => "fixture-seed-collision",
        Negative::OrphanArea => "fixture-orphan-area",
        Negative::SeedTooSmall => "fixture-seed-too-small",
        Negative::SeedOnLine => "fixture-seed-on-line",
        Negative::LineCoverage => "fixture-line-coverage",
        Negative::DisplayP3 => "fixture-display-p3",
    };
    let mut canvas = Canvas::new(F_W, F_H);
    assert(canvas.idx@ =~= blank(F_W as int, F_H as int));
    zone_grid(&mut canvas, (0, 0, F_W, F_H), 0, F_CELL);
    proof {
        lemma_grid_colors_below_16((0u32, 0u32, F_W, F_H), F_CELL, 0);
        lemma_painted_below_16(blank(F_W as int, F_H as int), F_W as int, grid_rects((0u32, 0u32, F_W, F_H), F_CELL, grid_color(0)));
    }
    let mut lineart = canvas.lineart_rgba();
    let ghost l0 = lineart@;
    if kind == Negative::SeedCollision {
        open_gap(&mut lineart);
    }
    if kind == Negative::LineCoverage {
        make_opaque(&mut lineart);
    }
    let mut seeds = canvas.seeds_rgba();
    let ghost s0 = seeds@;
    let mut title = String::from_str("Fixture ");
    title.append(id);
    let mut seeds_icc: Option<Vec<u8>> = None;
    let (expect, planted): (&'static str, Vec<(u32, u32)>) = match kind {
        Negative::SeedCollision => {
            let rects = [cell_rect(0, 0), cell_rect(1, 0)];
            assert(rects@ =~= seq![f_cell(0, 0), f_cell(1, 0)]);
            (code::SEED_COLLISION, anchors_in(&seeds, &rects))
        },
        Negative::OrphanArea => {
            let rect = cell_rect(5, 5);
            clear_cell(&mut seeds, rect);
            let mut planted: Vec<(u32, u32)> = Vec::new();
            if let Some(a) = first_free(&lineart, rect) {
                planted.push(a);
            }
            assert(planted@ =~= opt_points(free_from(l0, f_cell(5, 5), 0)));
            (code::ORPHAN_AREA, planted)
        },
        Negative::SeedTooSmall => {
            let (x0, y0, _, _) = cell_rect(3, 3);
            clear_cell(&mut seeds, cell_rect(3, 3));
            dot(&mut seeds, (x0 + 8, y0 + 8, 2, 2));
            let mut planted: Vec<(u32, u32)> = Vec::new();
            planted.push((x0 + 8, y0 + 8));
            assert(planted@ =~= seq![(776u32, 776u32)]);
            (code::SEED_TOO_SMALL, planted)
        },
        Negative::SeedOnLine => {
            clear_cell(&mut seeds, cell_rect(7, 7));
            let (x, y) = (7 * F_CELL - 1, 1900);
            dot(&mut seeds, (x, y, 2, 1));
            let mut planted: Vec<(u32, u32)> = Vec::new();
            planted.push((x, y));
            assert(planted@ =~= seq![(1791u32, 1900u32)]);
            (code::SEED_ON_LINE, planted)
        },
        Negative::LineCoverage => (code::LINE_COVERAGE, Vec::new()),
        Negative::DisplayP3 => {
            seeds_icc = Some(display_p3_profile());
            (code::COLOR_SPACE, Vec::new())
        },
    };
    let asset = Asset {
        id: String::from_str(id),
        title,
        category: String::from_str("mandala"),
        notes: String::from_str("baker::synth::negative 產生的預期拒收素材。"),
        width: F_W,
        height: F_H,
        lineart,
        seeds,
        shade: None,
        seeds_icc,
        compression: Compression::Fast,
    };
    assert(canvas_seeds(fixture_idx(), F_W as int, F_H as int, s0));
    Fixture { asset, expect, planted }
}

} // verus!
