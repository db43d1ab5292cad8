//! Reading the seed image: each 4-connected blob of `alpha > 0` pixels is one seed.
use vstd::prelude::*;
use crate::components::{Components, label_components, is_labelling, NONE};
use crate::segment::{px_rgb, rgb_key};

verus! {

/// Lower bound on a seed's `alpha == 255` area (master pixels); below it the
/// mode colour is not reliable.
pub const MIN_SEED_AREA: u32 = 64;

#[derive(Debug, Clone, Copy, PartialEq, Eq)]
pub struct Seed {
    /// Where flood fill starts: the blob pixel closest to the blob's centroid
    /// (for a concave blob the centroid itself may lie outside).
    pub anchor: (u32, u32),
    /// The mode colour of the blob's `alpha == 255` pixels.
    pub color: [u8; 3],
    /// Number of the blob's `alpha == 255` pixels.
    pub solid_area: u32,
}

/// Alpha of pixel `p`.
pub open spec fn alpha(rgba: Seq<u8>, p: int) -> u8 {
    rgba[4 * p + 3]
}

/// How many blob pixels are solid (`alpha == 255`) and of colour `c`.
pub open spec fn solid_count(rgba: Seq<u8>, blob: Seq<u32>, c: [u8; 3]) -> nat
    decreases blob.len(),
{
    if blob.len() == 0 {
        0
    } else {
        let p = blob.last() as int;
        solid_count(rgba, blob.drop_last(), c) + (if alpha(rgba, p) == 255 && px_rgb(rgba, p) == c { 1nat } else { 0nat })
    }
}

/// How many blob pixels are solid.
pub open spec fn solid_total(rgba: Seq<u8>, blob: Seq<u32>) -> nat
    decreases blob.len(),
{
    if blob.len() == 0 {
        0
    } else {
        solid_total(rgba, blob.drop_last()) + (if alpha(rgba, blob.last() as int) == 255 { 1nat } else { 0nat })
    }
}

/// `c` is the mode colour of the blob's solid pixels; ties go to the
/// lexicographically smaller colour.
pub open spec fn is_mode(rgba: Seq<u8>, blob: Seq<u32>, c: [u8; 3]) -> bool {
    &&& solid_count(rgba, blob, c) > 0
    &&& forall|d: [u8; 3]| #![trigger solid_count(rgba, blob, d)] solid_count(rgba, blob, d) < solid_count(rgba, blob, c)
        || (solid_count(rgba, blob, d) == solid_count(rgba, blob, c) && rgb_key(c) <= rgb_key(d))
}

/// A blob whose pixels are all solid `col` counts every pixel towards `col`.
pub proof fn lemma_uniform_counts(rgba: Seq<u8>, blob: Seq<u32>, col: [u8; 3], x: [u8; 3])
    requires
        forall|i: int| 0 <= i < blob.len() ==> alpha(rgba, #[trigger] blob[i] as int) == 255 && px_rgb(rgba, blob[i] as int) == col,
    ensures
        solid_total(rgba, blob) == blob.len(),
        solid_count(rgba, blob, x) == (if x == col { blob.len() } else { 0 }),
    decreases blob.len(),
{
    if blob.len() > 0 {
        let rest = blob.drop_last();
        assert forall|i: int| 0 <= i < rest.len() implies alpha(rgba, #[trigger] rest[i] as int) == 255 && px_rgb(rgba, rest[i] as int) == col by {
            assert(rest[i] == blob[i]);
        }
        lemma_uniform_counts(rgba, rest, col, x);
        assert(alpha(rgba, blob[blob.len() - 1] as int) == 255);
    }
}

/// Sum of the x (or, with `by_y`, y) coordinates of the blob's pixels.
pub open spec fn coord_sum(blob: Seq<u32>, w: int, by_y: bool) -> int
    decreases blob.len(),
{
    if blob.len() == 0 {
        0
    } else {
        let p = blob.last() as int;
        coord_sum(blob.drop_last(), w, by_y) + (if by_y { p / w } else { p % w })
    }
}

/// Squared distance of pixel `p` to `(cx, cy)`.
pub open spec fn dist2(p: int, w: int, cx: int, cy: int) -> int {
    (p % w - cx) * (p % w - cx) + (p / w - cy) * (p / w - cy)
}

/// `a` comes no later than `b` in the anchor order: nearer to the centroid,
/// then smaller y, then smaller x.
pub open spec fn anchor_le(a: int, b: int, w: int, cx: int, cy: int) -> bool {
    ||| dist2(a, w, cx, cy) < dist2(b, w, cx, cy)
    ||| dist2(a, w, cx, cy) == dist2(b, w, cx, cy) && a / w < b / w
    ||| dist2(a, w, cx, cy) == dist2(b, w, cx, cy) && a / w == b / w && a % w <= b % w
}

/// `s` describes the blob: its solid area, its mode colour (black when nothing
/// is solid) and its anchor, the blob pixel first in the anchor order around the
/// integer centroid.
pub open spec fn describes_blob(rgba: Seq<u8>, w: int, blob: Seq<u32>, s: Seed) -> bool {
    let n = blob.len() as int;
    let cx = coord_sum(blob, w, false) / n;
    let cy = coord_sum(blob, w, true) / n;
    let a = s.anchor.1 * w + s.anchor.0;
    &&& s.solid_area == solid_total(rgba, blob)
    &&& if solid_total(rgba, blob) == 0 { s.color == [0u8, 0u8, 0u8] } else { is_mode(rgba, blob, s.color) }
    &&& s.anchor.0 < w
    &&& blob.contains(a as u32)
    &&& forall|i: int| 0 <= i < blob.len() ==> anchor_le(a, #[trigger] blob[i] as int, w, cx, cy)
}

proof fn lemma_coord_sum_bound(blob: Seq<u32>, w: int, h: int, by_y: bool)
    requires
        w >= 1,
        forall|i: int| 0 <= i < blob.len() ==> (#[trigger] blob[i]) < w * h,
    ensures
        0 <= coord_sum(blob, w, by_y) <= blob.len() * (if by_y { h - 1 } else { w - 1 }),
    decreases blob.len(),
{
    if blob.len() > 0 {
        let p = blob.last() as int;
        assert forall|i: int| 0 <= i < blob.drop_last().len() implies (#[trigger] blob.drop_last()[i]) < w * h by {
            assert(blob.drop_last()[i] == blob[i]);
        }
        lemma_coord_sum_bound(blob.drop_last(), w, h, by_y);
        assert(0 <= p % w <= w - 1 && 0 <= p / w <= h - 1) by (nonlinear_arith)
            requires
                w >= 1,
                0 <= p < w * h,
        ;
        assert((blob.len() - 1) * (if by_y { h - 1 } else { w - 1 }) + (if by_y { h - 1 } else { w - 1 })
            == blob.len() * (if by_y { h - 1 } else { w - 1 })) by (nonlinear_arith);
    }
}

/// Describes one blob: mode colour of its solid pixels, solid area, anchor.
pub fn describe(blob: &Vec<u32>, rgba: &[u8], w: usize, h: usize) -> (s: Seed)
    requires
        blob@.len() > 0,
        blob@.len() <= u32::MAX,
        w >= 1,
        w < 0x8000_0000,
        h < 0x8000_0000,
        w * h <= u32::MAX,
        rgba@.len() >= w * h * 4,
        forall|i: int| 0 <= i < blob@.len() ==> (#[trigger] blob@[i]) < w * h,
    ensures
        describes_blob(rgba@, w as int, blob@, s),
{
    let n = blob.len();
    let mut hist: Vec<([u8; 3], u32)> = Vec::new();
    let mut solid: u32 = 0;
    let mut sx: u64 = 0;
    let mut sy: u64 = 0;
    let mut i: usize = 0;
    while i < n
        invariant
            n == blob@.len(),
            n <= u32::MAX,
            w >= 1,
            w < 0x8000_0000,
            h < 0x8000_0000,
            w * h <= u32::MAX,
            rgba@.len() >= w * h * 4,
            forall|j: int| 0 <= j < blob@.len() ==> (#[trigger] blob@[j]) < w * h,
            i <= n,
            sx == coord_sum(blob@.subrange(0, i as int), w as int, false),
            sy == coord_sum(blob@.subrange(0, i as int), w as int, true),
            solid == solid_total(rgba@, blob@.subrange(0, i as int)),
            solid <= i,
            forall|a: int, b: int| 0 <= a < b < hist@.len() ==> (#[trigger] hist@[a]).0 != (#[trigger] hist@[b]).0,
            forall|k: int| 0 <= k < hist@.len() ==> (#[trigger] hist@[k]).1 == solid_count(rgba@, blob@.subrange(0, i as int), hist@[k].0)
                && hist@[k].1 > 0,
            forall|c: [u8; 3]| solid_count(rgba@, blob@.subrange(0, i as int), c) > 0 ==>
                exists|k: int| 0 <= k < hist@.len() && (#[trigger] hist@[k]).0 == c,
        decreases n - i,
    {
        let p = blob[i] as usize;
        let ghost pre = blob@.subrange(0, i as int);
        let ghost post = blob@.subrange(0, i + 1);
        assert(post.drop_last() =~= pre);
        assert(post.last() == p);
        proof {
            lemma_coord_sum_bound(pre, w as int, h as int, false);
            lemma_coord_sum_bound(pre, w as int, h as int, true);
            assert(i * (w - 1) <= 0x8000_0000_0000_0000) by (nonlinear_arith)
                requires
                    i < 0x1_0000_0000,
                    1 <= w < 0x8000_0000,
            ;
            assert(h >= 1) by (nonlinear_arith)
                requires
                    p < w * h,
            ;
            assert(i * (h - 1) <= 0x8000_0000_0000_0000) by (nonlinear_arith)
                requires
                    i < 0x1_0000_0000,
                    1 <= h < 0x8000_0000,
            ;
            assert(p / w < 0x1_0000_0000) by (nonlinear_arith)
                requires
                    w >= 1,
                    p < w * h,
                    h < 0x8000_0000,
            ;
        }
        sx = sx + (p % w) as u64;
        sy = sy + (p / w) as u64;
        assert(4 * p + 3 < rgba.len());
        if rgba[4 * p + 3] == 255 {
            let c = [rgba[4 * p], rgba[4 * p + 1], rgba[4 * p + 2]];
            assert(c == px_rgb(rgba@, p as int));
            let mut k: usize = 0;
            let mut found = false;
            while k < hist.len()
                invariant_except_break
                    k <= hist@.len(),
                    !found,
                    forall|j: int| 0 <= j < k ==> hist@[j].0 != c,
                ensures
                    found ==> k < hist@.len() && hist@[k as int].0 == c,
                    !found ==> forall|j: int| 0 <= j < hist@.len() ==> hist@[j].0 != c,
                decreases hist@.len() - k,
            {
                let e = hist[k];
                if e.0[0] == c[0] && e.0[1] == c[1] && e.0[2] == c[2] {
                    found = true;
                    assert(e.0 =~= c);
                    break;
                }
                assert(e.0 != c);
                k += 1;
            }
            let ghost hist_before = hist@;
            if found {
                let e = hist[k];
                proof {
                    lemma_solid_count_bound(rgba@, pre, c);
                }
                hist.set(k, (e.0, e.1 + 1));
            } else {
                hist.push((c, 1));
            }
            solid = solid + 1;
            proof {
                assert forall|kk: int| 0 <= kk < hist@.len() implies (#[trigger] hist@[kk]).1 == solid_count(rgba@, post, hist@[kk].0)
                    && hist@[kk].1 > 0 by {
                    assert(solid_count(rgba@, post, hist@[kk].0) == solid_count(rgba@, pre, hist@[kk].0)
                        + (if hist@[kk].0 == c { 1nat } else { 0nat }));
                    if !found && kk == hist@.len() - 1 {
                        if solid_count(rgba@, pre, c) > 0 {
                            let j = choose|j: int| 0 <= j < hist@.len() - 1 && (#[trigger] hist@[j]).0 == c;
                            assert(false);
                        }
                    }
                }
                assert forall|d: [u8; 3]| solid_count(rgba@, post, d) > 0 implies
                    exists|kk: int| 0 <= kk < hist@.len() && (#[trigger] hist@[kk]).0 == d by {
                    if d == c {
                        if found {
                            assert(hist@[k as int].0 == d);
                        } else {
                            assert(hist@[hist@.len() - 1].0 == d);
                        }
                    } else {
                        assert(solid_count(rgba@, post, d) == solid_count(rgba@, pre, d));
                        assert(solid_count(rgba@, pre, d) > 0);
                        let j = choose|j: int| 0 <= j < hist_before.len() && (#[trigger] hist_before[j]).0 == d;
                        assert(hist@[j].0 == d);
                    }
                }
            }
        } else {
            proof {
                assert forall|d: [u8; 3]| #![auto] solid_count(rgba@, post, d) == solid_count(rgba@, pre, d) by {}
            }
        }
        i += 1;
    }
    assert(blob@.subrange(0, n as int) =~= blob@);

    // Mode colour, ties to the lexicographically smaller colour.
    let mut color = [0u8, 0u8, 0u8];
    let mut best: u32 = 0;
    let mut k: usize = 0;
    while k < hist.len()
        invariant
            k <= hist@.len(),
            forall|j: int| 0 <= j < hist@.len() ==> (#[trigger] hist@[j]).1 == solid_count(rgba@, blob@, hist@[j].0) && hist@[j].1 > 0,
            k == 0 ==> best == 0 && color == [0u8, 0u8, 0u8],
            k > 0 ==> best == solid_count(rgba@, blob@, color) && best > 0,
            forall|j: int| 0 <= j < k ==> (#[trigger] hist@[j]).1 < best || (hist@[j].1 == best && rgb_key(color) <= rgb_key(hist@[j].0)),
        decreases hist@.len() - k,
    {
        let e = hist[k];
        let ek = e.0[0] as u32 * 65536 + e.0[1] as u32 * 256 + e.0[2] as u32;
        let ck = color[0] as u32 * 65536 + color[1] as u32 * 256 + color[2] as u32;
        if e.1 > best || (e.1 == best && ek < ck) {
            color = e.0;
            best = e.1;
        }
        k += 1;
    }
    proof {
        if solid_total(rgba@, blob@) > 0 {
            lemma_solid_total_has_color(rgba@, blob@);
            let c0 = choose|c0: [u8; 3]| solid_count(rgba@, blob@, c0) > 0;
            let j = choose|j: int| 0 <= j < hist@.len() && (#[trigger] hist@[j]).0 == c0;
            assert(hist@[j].1 > 0);
            assert(hist@.len() > 0);
            assert forall|d: [u8; 3]| #![trigger solid_count(rgba@, blob@, d)] solid_count(rgba@, blob@, d) < solid_count(rgba@, blob@, color)
                || (solid_count(rgba@, blob@, d) == solid_count(rgba@, blob@, color) && rgb_key(color) <= rgb_key(d)) by {
                if solid_count(rgba@, blob@, d) > 0 {
                    let jd = choose|jd: int| 0 <= jd < hist@.len() && (#[trigger] hist@[jd]).0 == d;
                    assert(hist@[jd].1 == solid_count(rgba@, blob@, d));
                }
            }
        } else {
            if hist@.len() > 0 {
                lemma_solid_count_le_total(rgba@, blob@, hist@[0].0);
            }
        }
    }

    // Anchor: the blob pixel nearest the integer centroid, then smaller y, then smaller x.
    proof {
        lemma_coord_sum_bound(blob@, w as int, h as int, false);
        lemma_coord_sum_bound(blob@, w as int, h as int, true);
        assert((sx as int) / (n as int) <= w - 1 && (sy as int) / (n as int) <= h - 1) by (nonlinear_arith)
            requires
                n >= 1,
                0 <= sx <= n * (w - 1),
                0 <= sy <= n * (h - 1),
        ;
    }
    let cx = (sx / n as u64) as i64;
    let cy = (sy / n as u64) as i64;
    let ghost gcx = coord_sum(blob@, w as int, false) / (n as int);
    let ghost gcy = coord_sum(blob@, w as int, true) / (n as int);
    let mut anchor = blob[0] as usize;
    let mut best_d: i64 = dist2_exec(anchor, w, h, cx, cy);
    let mut j: usize = 1;
    while j < n
        invariant
            n == blob@.len(),
            w >= 1,
            w < 0x8000_0000,
            h < 0x8000_0000,
            w * h <= u32::MAX,
            0 <= cx < w,
            0 <= cy < h,
            cx == gcx,
            cy == gcy,
            forall|t: int| 0 <= t < blob@.len() ==> (#[trigger] blob@[t]) < w * h,
            1 <= j <= n,
            blob@.contains(anchor as u32),
            anchor < w * h,
            best_d == dist2(anchor as int, w as int, cx as int, cy as int),
            forall|t: int| 0 <= t < j ==> anchor_le(anchor as int, #[trigger] blob@[t] as int, w as int, cx as int, cy as int),
        decreases n - j,
    {
        let p = blob[j] as usize;
        let d = dist2_exec(p, w, h, cx, cy);
        if d < best_d || (d == best_d && (p / w < anchor / w || (p / w == anchor / w && p % w < anchor % w))) {
            anchor = p;
            best_d = d;
        }
        j += 1;
    }
    proof {
        assert(0 <= anchor % w < w && (anchor / w) * w + anchor % w == anchor) by (nonlinear_arith)
            requires
                w >= 1,
        ;
    }
    Seed {
        anchor: ((anchor % w) as u32, (anchor / w) as u32),
        color,
        solid_area: solid,
    }
}

/// The integer centroid `(cx, cy)` of a blob.
pub fn blob_centroid(blob: &Vec<u32>, w: usize, h: usize) -> (c: (i64, i64))
    requires
        blob@.len() > 0,
        blob@.len() <= u32::MAX,
        w >= 1,
        w < 0x8000_0000,
        h < 0x8000_0000,
        w * h <= u32::MAX,
        forall|i: int| 0 <= i < blob@.len() ==> (#[trigger] blob@[i]) < w * h,
    ensures
        c.0 == coord_sum(blob@, w as int, false) / (blob@.len() as int),
        c.1 == coord_sum(blob@, w as int, true) / (blob@.len() as int),
        0 <= c.0 < w,
        0 <= c.1 < h,
{
    let n = blob.len();
    let mut sx: u64 = 0;
    let mut sy: u64 = 0;
    let mut i: usize = 0;
    while i < n
        invariant
            n == blob@.len(),
            n <= u32::MAX,
            w >= 1,
            w < 0x8000_0000,
            h < 0x8000_0000,
            w * h <= u32::MAX,
            forall|j: int| 0 <= j < blob@.len() ==> (#[trigger] blob@[j]) < w * h,
            i <= n,
            sx == coord_sum(blob@.subrange(0, i as int), w as int, false),
            sy == coord_sum(blob@.subrange(0, i as int), w as int, true),
        decreases n - i,
    {
        let p = blob[i] as usize;
        let ghost pre = blob@.subrange(0, i as int);
        let ghost post = blob@.subrange(0, i + 1);
        assert(post.drop_last() =~= pre);
        assert(post.last() == p);
        proof {
            lemma_coord_sum_bound(pre, w as int, h as int, false);
            lemma_coord_sum_bound(pre, w as int, h as int, true);
            assert(i * (w - 1) <= 0x8000_0000_0000_0000) by (nonlinear_arith)
                requires
                    i < 0x1_0000_0000,
                    1 <= w < 0x8000_0000,
            ;
            assert(h >= 1) by (nonlinear_arith)
                requires
                    p < w * h,
            ;
            assert(i * (h - 1) <= 0x8000_0000_0000_0000) by (nonlinear_arith)
                requires
                    i < 0x1_0000_0000,
                    1 <= h < 0x8000_0000,
            ;
            assert(p / w < 0x1_0000_0000) by (nonlinear_arith)
                requires
                    w >= 1,
                    p < w * h,
                    h < 0x8000_0000,
            ;
        }
        sx = sx + (p % w) as u64;
        sy = sy + (p / w) as u64;
        i += 1;
    }
    assert(blob@.subrange(0, n as int) =~= blob@);
    proof {
        assert(h >= 1) by (nonlinear_arith)
            requires
                blob@[0] < w * h,
        ;
        lemma_coord_sum_bound(blob@, w as int, h as int, false);
        lemma_coord_sum_bound(blob@, w as int, h as int, true);
        assert((sx as int) / (n as int) <= w - 1 && (sy as int) / (n as int) <= h - 1) by (nonlinear_arith)
            requires
                n >= 1,
                0 <= sx <= n * (w - 1),
                0 <= sy <= n * (h - 1),
        ;
    }
    ((sx / n as u64) as i64, (sy / n as u64) as i64)
}

pub fn dist2_exec(p: usize, w: usize, h: usize, cx: i64, cy: i64) -> (d: i64)
    requires
        w >= 1,
        w < 0x8000_0000,
        h < 0x8000_0000,
        p < w * h,
        0 <= cx < w,
        0 <= cy < h,
    ensures
        d == dist2(p as int, w as int, cx as int, cy as int),
{
    proof {
        assert(p / w < h) by (nonlinear_arith)
            requires
                w >= 1,
                p < w * h,
        ;
    }
    let dx = (p % w) as i64 - cx;
    let dy = (p / w) as i64 - cy;
    assert(0 <= dx * dx < 0x4000_0000_0000_0000 && 0 <= dy * dy < 0x4000_0000_0000_0000) by (nonlinear_arith)
        requires
            -0x8000_0000 < dx < 0x8000_0000,
            -0x8000_0000 < dy < 0x8000_0000,
    ;
    dx * dx + dy * dy
}

proof fn lemma_solid_count_bound(rgba: Seq<u8>, blob: Seq<u32>, c: [u8; 3])
    ensures
        solid_count(rgba, blob, c) <= blob.len(),
    decreases blob.len(),
{
    if blob.len() > 0 {
        lemma_solid_count_bound(rgba, blob.drop_last(), c);
    }
}

proof fn lemma_solid_count_le_total(rgba: Seq<u8>, blob: Seq<u32>, c: [u8; 3])
    ensures
        solid_count(rgba, blob, c) <= solid_total(rgba, blob),
    decreases blob.len(),
{
    if blob.len() > 0 {
        lemma_solid_count_le_total(rgba, blob.drop_last(), c);
    }
}

proof fn lemma_solid_total_has_color(rgba: Seq<u8>, blob: Seq<u32>)
    requires
        solid_total(rgba, blob) > 0,
    ensures
        exists|c: [u8; 3]| solid_count(rgba, blob, c) > 0,
    decreases blob.len(),
{
    let p = blob.last() as int;
    if alpha(rgba, p) == 255 {
        assert(solid_count(rgba, blob, px_rgb(rgba, p)) > 0);
    } else {
        lemma_solid_total_has_color(rgba, blob.drop_last());
        let c = choose|c: [u8; 3]| solid_count(rgba, blob.drop_last(), c) > 0;
        assert(solid_count(rgba, blob, c) > 0);
    }
}

/// Raster-order sort key of a seed's anchor.
pub open spec fn anchor_key(s: Seed) -> int {
    s.anchor.1 * 0x1_0000_0000 + s.anchor.0
}

/// Seeds in raster order of their anchors.
pub open spec fn sorted_by_anchor(seeds: Seq<Seed>) -> bool {
    forall|i: int, j: int| 0 <= i < j < seeds.len() ==> anchor_key(#[trigger] seeds[i]) <= anchor_key(#[trigger] seeds[j])
}

/// Whether a pixel is part of some seed (`alpha > 0`).
pub open spec fn painted(rgba: Seq<u8>, n: int) -> Seq<bool> {
    Seq::new(n as nat, |p: int| alpha(rgba, p) > 0)
}

/// All seed pixels share one key: connectivity alone decides.
pub open spec fn zero_keys(n: int) -> Seq<u32> {
    Seq::new(n as nat, |p: int| 0u32)
}

/// Inserts `s` into the sorted `out`, after every seed whose key is not larger.
fn insert_sorted(out: &mut Vec<Seed>, s: Seed)
    requires
        sorted_by_anchor(old(out)@),
    ensures
        sorted_by_anchor(final(out)@),
        final(out)@.to_multiset() == old(out)@.to_multiset().insert(s),
{
    let sk = s.anchor.1 as u64 * 0x1_0000_0000 + s.anchor.0 as u64;
    let mut pos: usize = 0;
    while pos < out.len()
        invariant_except_break
            pos <= out@.len(),
            sorted_by_anchor(out@),
            forall|i: int| 0 <= i < pos ==> anchor_key(#[trigger] out@[i]) <= sk,
        ensures
            pos <= out@.len(),
            forall|i: int| 0 <= i < pos ==> anchor_key(#[trigger] out@[i]) <= sk,
            forall|i: int| pos <= i < out@.len() ==> anchor_key(#[trigger] out@[i]) > sk,
        decreases out@.len() - pos,
    {
        let e = out[pos];
        let ek = e.anchor.1 as u64 * 0x1_0000_0000 + e.anchor.0 as u64;
        if ek > sk {
            proof {
                assert forall|i: int| pos <= i < out@.len() implies anchor_key(#[trigger] out@[i]) > sk by {
                    if i > pos {
                        assert(anchor_key(out@[pos as int]) <= anchor_key(out@[i]));
                    }
                }
            }
            break;
        }
        pos += 1;
    }
    let ghost before = out@;
    out.insert(pos, s);
    proof {
        vstd::seq_lib::to_multiset_insert(before, pos as int, s);
        assert forall|i: int, j: int| 0 <= i < j < out@.len() implies anchor_key(#[trigger] out@[i]) <= anchor_key(#[trigger] out@[j]) by {
            if i < pos && j < pos {
                assert(out@[i] == before[i] && out@[j] == before[j]);
            } else if i < pos && j == pos {
                assert(out@[i] == before[i]);
            } else if i < pos && j > pos {
                assert(out@[i] == before[i] && out@[j] == before[j - 1]);
            } else if i == pos {
                assert(out@[j] == before[j - 1]);
            } else {
                assert(out@[i] == before[i - 1] && out@[j] == before[j - 1]);
            }
        }
    }
}

/// `out` is what reading the seeds image `rgba` gives: one description per
/// 4-connected blob of painted pixels, in raster order of the anchors.
pub open spec fn reads_as(rgba: Seq<u8>, width: u32, height: u32, out: Seq<Seed>) -> bool {
    &&& sorted_by_anchor(out)
    &&& exists|c: Components, desc: Seq<Seed>|
        #![trigger is_labelling(c, zero_keys(width * height), painted(rgba, width * height), width as int, height as int), desc.to_multiset()]
    {
        &&& is_labelling(c, zero_keys(width * height), painted(rgba, width * height), width as int, height as int)
        &&& desc.len() == c.first@.len()
        &&& forall|k: int| 0 <= k < desc.len() ==> describes_blob(rgba, width as int, c.blobs@[k]@, #[trigger] desc[k])
        &&& out.to_multiset() == desc.to_multiset()
    }
}

/// One seed per 4-connected blob of `alpha > 0` pixels, described by
/// [`describe`], in raster order of the anchors — so region ids do not depend
/// on the order in which the artist placed the seeds.
pub fn read(rgba: &[u8], width: u32, height: u32) -> (out: Vec<Seed>)
    requires
        width * height < NONE,
        width < 0x8000_0000,
        height < 0x8000_0000,
        rgba@.len() >= width * height * 4,
    ensures
        reads_as(rgba@, width, height, out@),
{
    let (w, h) = (width as usize, height as usize);
    let n = w * h;
    let mut keys: Vec<u32> = Vec::with_capacity(n);
    let mut active: Vec<bool> = Vec::with_capacity(n);
    let mut i: usize = 0;
    while i < n
        invariant
            n == w * h,
            rgba@.len() >= n * 4,
            i <= n,
            keys@.len() == i,
            active@.len() == i,
            forall|j: int| 0 <= j < i ==> keys@[j] == 0u32,
            forall|j: int| 0 <= j < i ==> active@[j] == (alpha(rgba@, j) > 0),
        decreases n - i,
    {
        assert(4 * i + 3 < rgba.len());
        keys.push(0);
        active.push(rgba[4 * i + 3] > 0);
        i += 1;
    }
    assert(keys@ =~= zero_keys(n as int));
    assert(active@ =~= painted(rgba@, n as int));
    let c = label_components(&keys, &active, w, h);
    let count = c.blobs.len();
    let mut out: Vec<Seed> = Vec::new();
    let ghost mut desc: Seq<Seed> = Seq::empty();
    let mut k: usize = 0;
    while k < count
        invariant
            n == w * h,
            n < NONE,
            w < 0x8000_0000,
            h < 0x8000_0000,
            rgba@.len() >= n * 4,
            is_labelling(c, keys@, active@, w as int, h as int),
            count == c.blobs@.len(),
            k <= count,
            desc.len() == k,
            forall|j: int| 0 <= j < k ==> describes_blob(rgba@, w as int, c.blobs@[j]@, #[trigger] desc[j]),
            sorted_by_anchor(out@),
            out@.to_multiset() == desc.to_multiset(),
        decreases count - k,
    {
        let blob = &c.blobs[k];
        proof {
            crate::components::lemma_distinct_below(blob@, n as int);
            let f = c.first@[k as int];
            assert(c.labels@[f as int] != NONE);
            assert(c.blobs@[c.labels@[f as int] as int]@.contains(f));
            assert(w >= 1) by (nonlinear_arith)
                requires
                    f < w * h,
            ;
        }
        let s = describe(blob, rgba, w, h);
        insert_sorted(&mut out, s);
        proof {
            vstd::seq_lib::to_multiset_build(desc, s);
            desc = desc.push(s);
        }
        k += 1;
    }
    out
}

} // verus!
