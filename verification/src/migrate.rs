//! Derives `seeds.png` from a `reference.png` delivered under the earlier
//! flats-and-reference contract, so that existing artwork can still be baked
//! until the artist redelivers seeds.
//!
//! Regions come from the line art alone (4-connected blobs of non-line pixels);
//! the reference only supplies each blob's mode colour.
use vstd::prelude::*;
use crate::binarize::{line_mask, line_mask_spec};
use crate::components::{has_nbr, nbr, opp, lemma_nbr, step, label_components, is_labelling, lemma_distinct_below, Components, NONE};
use crate::components::{dot_pixels, grow_dirs, grown_from, lemma_grow_dirs_full, closed};
use crate::dots::{dot_of, dots_layout, lemma_one_blob_per_dot};
use crate::segment::all_active;
use crate::segment::{count_eq, lemma_count_eq_bound, lemma_count_eq_update, px_rgb, rgb_key};
use crate::seeds::{describe, describes_blob, is_mode, solid_count, solid_total, alpha, zero_keys, painted, reads_as, lemma_uniform_counts, Seed};

verus! {

/// Target area of a derived seed dot: twice the minimum seed area.
pub const DOT_AREA: usize = 128;

/// Depth of a pixel not yet reached.
const UNREACHED: u32 = 0xFFFF_FFFF;

/// Line pixels and canvas-edge pixels are where depth is measured from.
pub open spec fn is_source(line: Seq<bool>, w: int, h: int, p: int) -> bool {
    line[p] || p % w == 0 || p / w == 0 || p % w + 1 == w || p / w + 1 == h
}

/// `depth` is, for every pixel, the 4-connected distance to the nearest line or
/// canvas-edge pixel: zero exactly there, never more than one above a neighbour's,
/// and elsewhere one above some neighbour's.
pub open spec fn line_distance(depth: Seq<u32>, line: Seq<bool>, w: int, h: int) -> bool {
    let n = w * h;
    &&& depth.len() == n
    &&& forall|p: int| 0 <= p < n ==> (#[trigger] depth[p] == 0 <==> is_source(line, w, h, p))
    &&& forall|p: int, d: int| 0 <= p < n && 0 <= d < 4 && #[trigger] has_nbr(w, h, p, d)
        ==> depth[p] <= depth[nbr(w, p, d)] + 1
    &&& forall|p: int| 0 <= p < n && #[trigger] depth[p] > 0 ==> exists|d: int| 0 <= d < 4 && has_nbr(w, h, p, d)
        && depth[nbr(w, p, d)] + 1 == depth[p]
}

proof fn lemma_count_all(s: Seq<u32>, v: int, i: int)
    requires
        0 <= i <= s.len(),
        forall|j: int| 0 <= j < i ==> s[j] == v,
    ensures
        count_eq(s, v, i) == i,
    decreases i,
{
    if i > 0 {
        lemma_count_all(s, v, i - 1);
    }
}

/// Every pixel reached when every neighbour of a reached pixel is reached and the
/// left edge is reached.
proof fn lemma_all_reached(depth: Seq<u32>, line: Seq<bool>, w: int, h: int, p: int)
    requires
        w >= 1,
        h >= 1,
        depth.len() == w * h,
        0 <= p < w * h,
        forall|q: int| 0 <= q < w * h && is_source(line, w, h, q) ==> #[trigger] depth[q] != UNREACHED,
        forall|q: int, d: int| 0 <= q < w * h && 0 <= d < 4 && #[trigger] has_nbr(w, h, q, d) && depth[q] != UNREACHED
            ==> depth[nbr(w, q, d)] != UNREACHED,
    ensures
        depth[p] != UNREACHED,
    decreases p % w,
{
    if p % w > 0 {
        assert(has_nbr(w, h, p, 0));
        lemma_nbr(w, h, p, 0);
        assert((p - 1) % w == p % w - 1) by (nonlinear_arith)
            requires
                w >= 1,
                p % w > 0,
                p >= 0,
        ;
        lemma_all_reached(depth, line, w, h, p - 1);
        assert(has_nbr(w, h, p - 1, 1));
        assert(nbr(w, p - 1, 1) == p);
    } else {
        assert(is_source(line, w, h, p));
    }
}

/// Breadth-first distance of every pixel to the nearest line or canvas-edge pixel.
fn depth_from_line(line: &Vec<bool>, w: usize, h: usize) -> (depth: Vec<u32>)
    requires
        w * h < NONE,
        line@.len() == w * h,
    ensures
        line_distance(depth@, line@, w as int, h as int),
{
    let n = w * h;
    let mut depth: Vec<u32> = vec![UNREACHED; n];
    let mut queue: Vec<u32> = Vec::new();
    proof {
        lemma_count_all(depth@, UNREACHED as int, n as int);
    }
    let mut p: usize = 0;
    while p < n
        invariant
            n == w * h,
            n < NONE,
            line@.len() == n,
            p <= n,
            depth@.len() == n,
            forall|q: int| 0 <= q < p ==> (#[trigger] depth@[q]) == (if is_source(line@, w as int, h as int, q) { 0u32 } else { UNREACHED }),
            forall|q: int| p <= q < n ==> (#[trigger] depth@[q]) == UNREACHED,
            queue@.len() == n - count_eq(depth@, UNREACHED as int, n as int),
            forall|k: int| 0 <= k < queue@.len() ==> (#[trigger] queue@[k]) < p && depth@[queue@[k] as int] == 0,
            forall|q: int| 0 <= q < n && depth@[q] != UNREACHED ==> #[trigger] queue@.contains(q as u32),
        decreases n - p,
    {
        assert(w >= 1 && h >= 1) by (nonlinear_arith)
            requires
                p < n,
                n == w * h,
        ;
        let (x, y) = (p % w, p / w);
        assert(p / w < h) by (nonlinear_arith)
            requires
                w >= 1,
                p < w * h,
        ;
        if line[p] || x == 0 || y == 0 || x + 1 == w || y + 1 == h {
            proof {
                lemma_count_eq_update(depth@, UNREACHED as int, n as int, p as int, 0);
            }
            let ghost before = queue@;
            depth.set(p, 0);
            queue.push(p as u32);
            proof {
                assert forall|q: int| 0 <= q < n && depth@[q] != UNREACHED implies #[trigger] queue@.contains(q as u32) by {
                    if q == p {
                        assert(queue@[queue@.len() - 1] == q as u32);
                    } else {
                        assert(before.contains(q as u32));
                        let k = choose|k: int| 0 <= k < before.len() && before[k] == q as u32;
                        assert(queue@[k] == q as u32);
                    }
                }
            }
        }
        p += 1;
    }
    let mut head: usize = 0;
    while head < queue.len()
        invariant
            n == w * h,
            n < NONE,
            line@.len() == n,
            n > 0 ==> w >= 1 && h >= 1,
            depth@.len() == n,
            head <= queue@.len(),
            queue@.len() == n - count_eq(depth@, UNREACHED as int, n as int),
            forall|k: int| 0 <= k < queue@.len() ==> (#[trigger] queue@[k]) < n && depth@[queue@[k] as int] != UNREACHED
                && depth@[queue@[k] as int] <= k,
            forall|q: int| 0 <= q < n && depth@[q] != UNREACHED ==> #[trigger] queue@.contains(q as u32),
            forall|k1: int, k2: int| 0 <= k1 <= k2 < queue@.len() ==> depth@[(#[trigger] queue@[k1]) as int] <= depth@[(#[trigger] queue@[k2]) as int],
            head < queue@.len() ==> depth@[queue@[queue@.len() - 1] as int] <= depth@[queue@[head as int] as int] + 1,
            forall|q: int| 0 <= q < n ==> (#[trigger] depth@[q] == 0 <==> is_source(line@, w as int, h as int, q)),
            forall|q: int| 0 <= q < n && #[trigger] depth@[q] != UNREACHED && depth@[q] > 0 ==> exists|d: int| 0 <= d < 4
                && has_nbr(w as int, h as int, q, d) && depth@[nbr(w as int, q, d)] + 1 == depth@[q],
            forall|k: int, d: int| 0 <= k < head && 0 <= d < 4 && #[trigger] has_nbr(w as int, h as int, queue@[k] as int, d) ==> {
                let m = nbr(w as int, queue@[k] as int, d);
                &&& depth@[m] != UNREACHED
                &&& depth@[m] <= depth@[queue@[k] as int] + 1
            },
        decreases n - head,
    {
        proof {
            lemma_count_eq_bound(depth@, UNREACHED as int, n as int);
        }
        let p = queue[head] as usize;
        let dp = depth[p];
        let ghost qd = depth@;
        let mut dir: usize = 0;
        while dir < 4
            invariant
                n == w * h,
                n < NONE,
                line@.len() == n,
                w >= 1 && h >= 1,
                depth@.len() == n,
                p < n,
                head < queue@.len(),
                queue@[head as int] == p,
                depth@[p as int] == dp,
                dp <= head,
                queue@.len() == n - count_eq(depth@, UNREACHED as int, n as int),
                forall|k: int| 0 <= k < queue@.len() ==> (#[trigger] queue@[k]) < n && depth@[queue@[k] as int] != UNREACHED
                    && depth@[queue@[k] as int] <= k,
                forall|q: int| 0 <= q < n && depth@[q] != UNREACHED ==> #[trigger] queue@.contains(q as u32),
                forall|q: int| 0 <= q < n && qd[q] != UNREACHED ==> #[trigger] depth@[q] == qd[q],
                forall|k1: int, k2: int| 0 <= k1 <= k2 < queue@.len() ==> depth@[(#[trigger] queue@[k1]) as int] <= depth@[(#[trigger] queue@[k2]) as int],
                depth@[queue@[queue@.len() - 1] as int] <= dp + 1,
                forall|q: int| 0 <= q < n ==> (#[trigger] depth@[q] == 0 <==> is_source(line@, w as int, h as int, q)),
                forall|q: int| 0 <= q < n && #[trigger] depth@[q] != UNREACHED && depth@[q] > 0 ==> exists|d: int| 0 <= d < 4
                    && has_nbr(w as int, h as int, q, d) && depth@[nbr(w as int, q, d)] + 1 == depth@[q],
                forall|k: int, d: int| 0 <= k < head && 0 <= d < 4 && #[trigger] has_nbr(w as int, h as int, queue@[k] as int, d) ==> {
                    let m = nbr(w as int, queue@[k] as int, d);
                    &&& depth@[m] != UNREACHED
                    &&& depth@[m] <= depth@[queue@[k] as int] + 1
                },
                dir <= 4,
                forall|d: int| 0 <= d < dir && #[trigger] has_nbr(w as int, h as int, p as int, d) ==> {
                    let m = nbr(w as int, p as int, d);
                    &&& depth@[m] != UNREACHED
                    &&& depth@[m] <= dp + 1
                },
            decreases 4 - dir,
        {
            if let Some(q) = step(w, h, p, dir) {
                if depth[q] == UNREACHED {
                    proof {
                        lemma_count_eq_update(depth@, UNREACHED as int, n as int, q as int, (dp + 1) as u32);
                        lemma_count_eq_bound(depth@, UNREACHED as int, n as int);
                        lemma_nbr(w as int, h as int, p as int, dir as int);
                        assert(nbr(w as int, q as int, opp(dir as int)) == p);
                    }
                    let ghost before = queue@;
                    let ghost dbefore = depth@;
                    depth.set(q, dp + 1);
                    queue.push(q as u32);
                    proof {
                        assert forall|r: int| 0 <= r < n && depth@[r] != UNREACHED implies #[trigger] queue@.contains(r as u32) by {
                            if r == q {
                                assert(queue@[queue@.len() - 1] == r as u32);
                            } else {
                                assert(before.contains(r as u32));
                                let k = choose|k: int| 0 <= k < before.len() && before[k] == r as u32;
                                assert(queue@[k] == r as u32);
                            }
                        }
                        assert forall|k: int| 0 <= k < queue@.len() implies (#[trigger] queue@[k]) < n && depth@[queue@[k] as int] != UNREACHED
                            && depth@[queue@[k] as int] <= k by {
                            if k < before.len() {
                                assert(queue@[k] == before[k]);
                                assert(before[k] != q as u32);
                            }
                        }
                        assert forall|k1: int, k2: int| 0 <= k1 <= k2 < queue@.len() implies
                            depth@[(#[trigger] queue@[k1]) as int] <= depth@[(#[trigger] queue@[k2]) as int] by {
                            if k2 < before.len() {
                                assert(queue@[k1] == before[k1] && queue@[k2] == before[k2]);
                                assert(before[k1] != q as u32 && before[k2] != q as u32);
                            } else if k1 < before.len() {
                                assert(queue@[k1] == before[k1]);
                                assert(before[k1] != q as u32);
                                assert(dbefore[before[k1] as int] <= dbefore[before[before.len() - 1] as int]);
                            }
                        }
                        assert forall|r: int| 0 <= r < n && #[trigger] depth@[r] != UNREACHED && depth@[r] > 0 implies exists|d: int| 0 <= d < 4
                            && has_nbr(w as int, h as int, r, d) && depth@[nbr(w as int, r, d)] + 1 == depth@[r] by {
                            if r == q {
                                assert(has_nbr(w as int, h as int, r, opp(dir as int)));
                                assert(depth@[nbr(w as int, r, opp(dir as int))] + 1 == depth@[r]);
                            } else {
                                let d = choose|d: int| 0 <= d < 4 && has_nbr(w as int, h as int, r, d) && dbefore[nbr(w as int, r, d)] + 1 == dbefore[r];
                                lemma_nbr(w as int, h as int, r, d);
                            }
                        }
                        assert forall|k: int, d: int| 0 <= k < head && 0 <= d < 4 && #[trigger] has_nbr(w as int, h as int, queue@[k] as int, d) implies {
                            let m = nbr(w as int, queue@[k] as int, d);
                            &&& depth@[m] != UNREACHED
                            &&& depth@[m] <= depth@[queue@[k] as int] + 1
                        } by {
                            assert(queue@[k] == before[k]);
                            assert(has_nbr(w as int, h as int, before[k] as int, d));
                            let m = nbr(w as int, before[k] as int, d);
                            lemma_nbr(w as int, h as int, before[k] as int, d);
                            assert(dbefore[m] != UNREACHED);
                            assert(m != q);
                        }
                        assert forall|d: int| 0 <= d < dir + 1 && #[trigger] has_nbr(w as int, h as int, p as int, d) implies {
                            let m = nbr(w as int, p as int, d);
                            &&& depth@[m] != UNREACHED
                            &&& depth@[m] <= dp + 1
                        } by {
                            if d < dir {
                                let m = nbr(w as int, p as int, d);
                                lemma_nbr(w as int, h as int, p as int, d);
                                assert(dbefore[m] != UNREACHED);
                                assert(m != q);
                            }
                        }
                    }
                } else {
                    proof {
                        assert(queue@.contains(q as u32));
                        let k = choose|k: int| 0 <= k < queue@.len() && queue@[k] == q as u32;
                        assert(depth@[queue@[k] as int] <= depth@[queue@[queue@.len() - 1] as int]);
                    }
                }
            }
            dir += 1;
        }
        head += 1;
    }
    proof {
        if n > 0 {
            assert forall|q: int| 0 <= q < n && is_source(line@, w as int, h as int, q) implies #[trigger] depth@[q] != UNREACHED by {
                assert(depth@[q] == 0);
            }
            assert forall|q: int, d: int| 0 <= q < n && 0 <= d < 4 && #[trigger] has_nbr(w as int, h as int, q, d) && depth@[q] != UNREACHED
                implies depth@[nbr(w as int, q, d)] != UNREACHED by {
                assert(queue@.contains(q as u32));
                let k = choose|k: int| 0 <= k < queue@.len() && queue@[k] == q as u32;
                assert(has_nbr(w as int, h as int, queue@[k] as int, d));
            }
            assert forall|q: int| 0 <= q < n implies #[trigger] depth@[q] != UNREACHED by {
                lemma_all_reached(depth@, line@, w as int, h as int, q);
            }
            assert forall|q: int, d: int| 0 <= q < n && 0 <= d < 4 && #[trigger] has_nbr(w as int, h as int, q, d)
                implies depth@[q] <= depth@[nbr(w as int, q, d)] + 1 by {
                let m = nbr(w as int, q, d);
                lemma_nbr(w as int, h as int, q, d);
                assert(nbr(w as int, m, opp(d)) == q);
                assert(depth@[m] != UNREACHED);
                assert(queue@.contains(m as u32));
                let k = choose|k: int| 0 <= k < queue@.len() && queue@[k] == m as u32;
                assert(has_nbr(w as int, h as int, queue@[k] as int, opp(d)));
            }
        }
    }
    depth
}

/// What baking needs from a derived seeds image.
#[derive(Debug, Clone)]
pub struct Derived {
    /// The seeds image, RGBA8.
    pub seeds: Vec<u8>,
    /// Closed areas that got a seed dot.
    pub seeded: usize,
    /// Fragments under `min_orphan_area`, deliberately left without a dot.
    pub skipped: usize,
}

/// Pixel `p` of an RGBA8 buffer.
pub open spec fn px(rgba: Seq<u8>, p: int) -> [u8; 4] {
    [rgba[4 * p], rgba[4 * p + 1], rgba[4 * p + 2], rgba[4 * p + 3]]
}

/// Opaque `c`.
pub open spec fn solid(c: [u8; 3]) -> [u8; 4] {
    [c[0], c[1], c[2], 255]
}

/// `rgba` with every alpha set to 255: every pixel counts towards the mode.
pub open spec fn opaque(rgba: Seq<u8>) -> Seq<u8> {
    Seq::new(rgba.len(), |i: int| if i % 4 == 3 { 255u8 } else { rgba[i] })
}

/// The non-line pixels.
pub open spec fn free_pixels(lineart: Seq<u8>, threshold: u8) -> Seq<bool> {
    line_mask_spec(lineart, threshold).map_values(|l: bool| !l)
}

/// The mode colour of a blob of `rgba` (ties to the smaller colour).
pub open spec fn mode_color(rgba: Seq<u8>, blob: Seq<u32>) -> [u8; 3] {
    choose|c: [u8; 3]| is_mode(rgba, blob, c)
}

/// `a` is the blob pixel farthest from the line, the earliest on a tie.
pub open spec fn deepest(blob: Seq<u32>, depth: Seq<u32>, a: u32) -> bool {
    &&& blob.contains(a)
    &&& forall|i: int| 0 <= i < blob.len() ==> depth[blob[i] as int] < depth[a as int]
        || (depth[blob[i] as int] == depth[a as int] && a <= blob[i])
}

/// The mode colour, in `reference`, of component `j` of `c`.
pub open spec fn blob_mode(reference: Seq<u8>, c: Components, j: int) -> [u8; 3] {
    mode_color(opaque(reference), c.blobs@[j]@)
}

/// How many of the first `k` components have at least `min` pixels.
pub open spec fn big_blobs(c: Components, min: u32, k: int) -> nat
    decreases k,
{
    if k <= 0 {
        0
    } else {
        big_blobs(c, min, k - 1) + (if c.blobs@[k - 1]@.len() >= min { 1nat } else { 0nat })
    }
}

proof fn lemma_mode_unique(rgba: Seq<u8>, blob: Seq<u32>, c: [u8; 3])
    requires
        is_mode(rgba, blob, c),
    ensures
        mode_color(rgba, blob) == c,
{
    let m = mode_color(rgba, blob);
    assert(is_mode(rgba, blob, m));
    assert(solid_count(rgba, blob, m) == solid_count(rgba, blob, c));
    assert(rgb_key(c) <= rgb_key(m) && rgb_key(m) <= rgb_key(c));
    assert(m =~= c);
}

proof fn lemma_solid_total_opaque(rgba: Seq<u8>, blob: Seq<u32>, n: int)
    requires
        rgba.len() >= 4 * n,
        forall|i: int| 0 <= i < blob.len() ==> (#[trigger] blob[i]) < n,
    ensures
        solid_total(opaque(rgba), blob) == blob.len(),
    decreases blob.len(),
{
    if blob.len() > 0 {
        assert forall|i: int| 0 <= i < blob.drop_last().len() implies (#[trigger] blob.drop_last()[i]) < n by {
            assert(blob.drop_last()[i] == blob[i]);
        }
        lemma_solid_total_opaque(rgba, blob.drop_last(), n);
        let p = blob.last() as int;
        assert(blob[blob.len() - 1] < n);
        assert((4 * p + 3) % 4 == 3);
        assert(alpha(opaque(rgba), p) == 255);
    }
}

/// `rgba` with every alpha set to 255.
fn opaque_copy(rgba: &[u8]) -> (out: Vec<u8>)
    ensures
        out@ == opaque(rgba@),
{
    let mut out: Vec<u8> = Vec::with_capacity(rgba.len());
    let mut i: usize = 0;
    while i < rgba.len()
        invariant
            i <= rgba@.len(),
            out@ == opaque(rgba@).take(i as int),
        decreases rgba@.len() - i,
    {
        out.push(if i % 4 == 3 { 255 } else { rgba[i] });
        assert(out@ =~= opaque(rgba@).take(i as int + 1));
        i += 1;
    }
    assert(out@ =~= opaque(rgba@));
    out
}

/// The blob pixel farthest from the line; the earliest one on a tie.
fn deepest_pixel(blob: &Vec<u32>, depth: &Vec<u32>) -> (a: u32)
    requires
        blob@.len() > 0,
        forall|i: int| 0 <= i < blob@.len() ==> (#[trigger] blob@[i]) < depth@.len(),
    ensures
        deepest(blob@, depth@, a),
{
    let mut best = blob[0];
    assert(blob@.subrange(0, 1)[0] == best);
    let mut i: usize = 1;
    while i < blob.len()
        invariant
            1 <= i <= blob@.len(),
            forall|j: int| 0 <= j < blob@.len() ==> (#[trigger] blob@[j]) < depth@.len(),
            blob@.subrange(0, i as int).contains(best),
            forall|j: int| 0 <= j < i ==> depth@[blob@[j] as int] < depth@[best as int]
                || (depth@[blob@[j] as int] == depth@[best as int] && best <= blob@[j]),
        decreases blob@.len() - i,
    {
        let p = blob[i];
        if depth[p as usize] > depth[best as usize] || (depth[p as usize] == depth[best as usize] && p < best) {
            best = p;
            assert(blob@.subrange(0, i as int + 1)[i as int] == p);
        } else {
            let ghost k = choose|k: int| 0 <= k < i && blob@.subrange(0, i as int)[k] == best;
            assert(blob@.subrange(0, i as int + 1)[k] == best);
        }
        i += 1;
    }
    proof {
        let k = choose|k: int| 0 <= k < blob@.len() && blob@.subrange(0, blob@.len() as int)[k] == best;
        assert(blob@[k] == best);
    }
    best
}

/// Paints the dot of component `k` in opaque `color`: up to `limit` of its
/// `allowed` pixels, breadth first from `anchor`; every other pixel keeps its value.
pub(crate) fn paint_dot(
    out: &mut Vec<u8>,
    taken: &mut Vec<bool>,
    anchor: usize,
    labels: &Vec<u32>,
    allowed: &Vec<bool>,
    k: u32,
    color: [u8; 3],
    limit: usize,
    w: usize,
    h: usize,
)
    requires
        1 <= limit,
        allowed@.len() == w * h,
        allowed@[anchor as int],
        w >= 1,
        h >= 1,
        w * h < NONE,
        labels@.len() == w * h,
        old(taken)@.len() == w * h,
        old(out)@.len() == 4 * (w * h),
        anchor < w * h,
        labels@[anchor as int] == k,
        forall|p: int| 0 <= p < w * h && labels@[p] == k ==> !(#[trigger] old(taken)@[p]),
    ensures
        final(out)@.len() == old(out)@.len(),
        final(taken)@.len() == old(taken)@.len(),
        forall|p: int| 0 <= p < w * h && labels@[p] != k ==> #[trigger] px(final(out)@, p) == px(old(out)@, p),
        forall|p: int| 0 <= p < w * h && labels@[p] != k ==> #[trigger] final(taken)@[p] == old(taken)@[p],
        forall|p: int| 0 <= p < w * h && labels@[p] == k ==> #[trigger] px(final(out)@, p) == if dot_pixels(
            labels@,
            k,
            allowed@,
            w as int,
            h as int,
            limit as int,
            anchor,
        ).contains(p as usize) {
            solid(color)
        } else {
            px(old(out)@, p)
        },
        px(final(out)@, anchor as int) == solid(color),
        forall|p: int| 0 <= p < w * h && labels@[p] == k ==> #[trigger] px(final(out)@, p) == px(old(out)@, p)
            || (px(final(out)@, p) == solid(color) && allowed@[p]),
{
    let n = w * h;
    let ghost out0 = out@;
    let ghost taken0 = taken@;
    let ghost target = dot_pixels(labels@, k, allowed@, w as int, h as int, limit as int, anchor);
    let mut queue: Vec<usize> = Vec::new();
    taken.set(anchor, true);
    queue.push(anchor);
    assert(queue@ =~= seq![anchor]);
    let mut head: usize = 0;
    proof {
        assert forall|p: int| 0 <= p < n && labels@[p] == k implies (#[trigger] taken@[p] <==> queue@.contains(p as usize)) by {
            if p == anchor {
                assert(queue@[0] == anchor);
            } else if queue@.contains(p as usize) {
                let j = choose|j: int| 0 <= j < queue@.len() && queue@[j] == p as usize;
                assert(j == 0);
            }
        }
        assert(queue@.take(0) =~= Seq::<usize>::empty());
    }
    while head < queue.len()
        invariant
            n == w * h,
            w >= 1,
            h >= 1,
            n < NONE,
            labels@.len() == n,
            taken@.len() == n,
            out@.len() == 4 * n,
            allowed@.len() == n,
            1 <= limit,
            target == dot_pixels(labels@, k, allowed@, w as int, h as int, limit as int, anchor),
            1 <= queue@.len() <= limit,
            head <= queue@.len(),
            queue@[0] == anchor,
            labels@[anchor as int] == k,
            grown_from(labels@, k, allowed@, w as int, h as int, limit as int, queue@, head as int) == target,
            forall|j: int| 0 <= j < queue@.len() ==> (#[trigger] queue@[j]) < n && labels@[queue@[j] as int] == k && allowed@[queue@[j] as int],
            forall|p: int| 0 <= p < n && labels@[p] == k ==> (#[trigger] taken@[p] <==> queue@.contains(p as usize)),
            forall|p: int| 0 <= p < n && labels@[p] != k ==> #[trigger] px(out@, p) == px(out0, p),
            forall|p: int| 0 <= p < n && labels@[p] != k ==> #[trigger] taken@[p] == taken0[p],
            forall|p: int| 0 <= p < n && labels@[p] == k ==> #[trigger] px(out@, p) == if queue@.take(head as int).contains(
                p as usize,
            ) {
                solid(color)
            } else {
                px(out0, p)
            },
        decreases limit - head,
    {
        let p = queue[head];
        assert(4 * p + 3 < 4 * n && 4 * n <= out.len()) by (nonlinear_arith)
            requires
                p < n,
                out@.len() == 4 * n,
        ;
        let ghost before = out@;
        let ghost q0 = queue@;
        out.set(4 * p, color[0]);
        out.set(4 * p + 1, color[1]);
        out.set(4 * p + 2, color[2]);
        out.set(4 * p + 3, 255);
        proof {
            assert(px(out@, p as int) == solid(color));
            assert forall|r: int| 0 <= r < n && r != p implies #[trigger] px(out@, r) == px(before, r) by {
                assert(4 * r + 3 < 4 * p || 4 * r > 4 * p + 3);
            }
        }
        let mut dir: usize = 0;
        while dir < 4
            invariant
                n == w * h,
                w >= 1,
                h >= 1,
                n < NONE,
                p < n,
                p == q0[head as int],
                labels@.len() == n,
                taken@.len() == n,
                allowed@.len() == n,
                1 <= limit,
                1 <= queue@.len() <= limit,
                head < q0.len(),
                q0.len() <= queue@.len(),
                queue@.take(q0.len() as int) == q0,
                queue@ == grow_dirs(labels@, k, allowed@, w as int, h as int, limit as int, q0, p as int, dir as int),
                queue@[0] == anchor,
                forall|j: int| 0 <= j < queue@.len() ==> (#[trigger] queue@[j]) < n && labels@[queue@[j] as int] == k && allowed@[queue@[j] as int],
                forall|q: int| 0 <= q < n && labels@[q] == k ==> (#[trigger] taken@[q] <==> queue@.contains(q as usize)),
                forall|q: int| 0 <= q < n && labels@[q] != k ==> #[trigger] taken@[q] == taken0[q],
                dir <= 4,
            decreases 4 - dir,
        {
            let ghost qb = queue@;
            if queue.len() < limit {
                if let Some(q) = step(w, h, p, dir) {
                    if labels[q] == k && allowed[q] && !taken[q] {
                        taken.set(q, true);
                        queue.push(q);
                        proof {
                            assert forall|r: int| 0 <= r < n && labels@[r] == k implies (#[trigger] taken@[r] <==> queue@.contains(r as usize)) by {
                                if r == q {
                                    assert(queue@[queue@.len() - 1] == q);
                                } else {
                                    if queue@.contains(r as usize) {
                                        let j = choose|j: int| 0 <= j < queue@.len() && queue@[j] == r as usize;
                                        assert(j < qb.len());
                                        assert(qb[j] == r as usize);
                                    }
                                    if qb.contains(r as usize) {
                                        let j = choose|j: int| 0 <= j < qb.len() && qb[j] == r as usize;
                                        assert(queue@[j] == r as usize);
                                    }
                                }
                            }
                            assert(queue@.take(q0.len() as int) =~= q0);
                        }
                    }
                }
            }
            assert(queue@ == grow_dirs(labels@, k, allowed@, w as int, h as int, limit as int, q0, p as int, dir as int + 1));
            dir += 1;
        }
        proof {
            assert(grown_from(labels@, k, allowed@, w as int, h as int, limit as int, q0, head as int) == grown_from(
                labels@,
                k,
                 allowed@,
                w as int,
                h as int,
                limit as int,
                queue@,
                head + 1,
            ));
            assert(queue@.take(head + 1) =~= q0.take(head as int).push(p));
            assert forall|r: int| 0 <= r < n && labels@[r] == k implies #[trigger] px(out@, r) == if queue@.take(head + 1).contains(
                r as usize,
            ) {
                solid(color)
            } else {
                px(out0, r)
            } by {
                let t0 = q0.take(head as int);
                let t1 = queue@.take(head + 1);
                if r != p {
                    if t1.contains(r as usize) {
                        let j = choose|j: int| 0 <= j < t1.len() && t1[j] == r as usize;
                        assert(j < head);
                        assert(t0[j] == r as usize);
                    }
                    if t0.contains(r as usize) {
                        let j = choose|j: int| 0 <= j < t0.len() && t0[j] == r as usize;
                        assert(t1[j] == r as usize);
                    }
                } else {
                    assert(t1[head as int] == p);
                }
            }
        }
        head += 1;
    }
    proof {
        assert(grown_from(labels@, k, allowed@, w as int, h as int, limit as int, queue@, head as int) == queue@);
        assert(queue@.take(head as int) =~= queue@);
        assert(queue@[0] == anchor);
        assert(queue@.contains(anchor));
        assert forall|p: int| 0 <= p < n && labels@[p] == k implies #[trigger] px(out@, p) == px(out0, p)
            || (px(out@, p) == solid(color) && allowed@[p]) by {
            if queue@.contains(p as usize) {
                let j = choose|j: int| 0 <= j < queue@.len() && queue@[j] == p as usize;
                assert(allowed@[queue@[j] as int]);
            }
        }
    }
}

/// In `seeds`, component `k` of `c` shows exactly its dot of at most `limit`
/// `allowed` pixels grown from `a`, in `color`, and is transparent elsewhere.
pub open spec fn dot_painted(seeds: Seq<u8>, c: Components, allowed: Seq<bool>, limit: int, k: int, a: u32, w: int, h: int, color: [u8; 3]) -> bool {
    forall|p: int| 0 <= p < w * h && c.labels@[p] == k ==> #[trigger] px(seeds, p) == if dot_pixels(
        c.labels@,
        k as u32,
        allowed,
        w,
        h,
        limit,
        a as usize,
    ).contains(p as usize) {
        solid(color)
    } else {
        [0u8, 0u8, 0u8, 0u8]
    }
}

/// `d` is the seeds image derived from `lineart` and `reference`: the closed
/// non-line areas are the components of the free pixels; each area of at least
/// `min` pixels shows exactly its dot, grown from its deepest pixel in the
/// area's mode colour; everything else is transparent.
pub open spec fn derived_from(lineart: Seq<u8>, reference: Seq<u8>, width: u32, height: u32, line_threshold: u8, min: u32, d: Derived) -> bool {
    let n = width * height;
    &&& d.seeds@.len() == 4 * n
    &&& exists|c: Components, depth: Seq<u32>| #![trigger is_labelling(c, zero_keys(n), free_pixels(lineart, line_threshold), width as int, height as int), line_distance(depth, line_mask_spec(lineart, line_threshold), width as int, height as int)] {
        let count = c.first@.len() as int;
        &&& is_labelling(c, zero_keys(n), free_pixels(lineart, line_threshold), width as int, height as int)
        &&& line_distance(depth, line_mask_spec(lineart, line_threshold), width as int, height as int)
        &&& d.seeded == big_blobs(c, min, count)
        &&& d.seeded + d.skipped == count
        &&& forall|k: int| 0 <= k < count && (#[trigger] c.blobs@[k])@.len() >= min ==> exists|a: u32|
            deepest(c.blobs@[k]@, depth, a) && dot_painted(d.seeds@, c, free_pixels(lineart, line_threshold), DOT_AREA as int, k, a, width as int, height as int, blob_mode(reference, c, k))
        &&& forall|p: int| 0 <= p < n && (c.labels@[p] == NONE || c.blobs@[c.labels@[p] as int]@.len() < min)
            ==> #[trigger] px(d.seeds@, p) == [0u8, 0u8, 0u8, 0u8]
    }
}

/// Derives a seeds image: one dot per closed non-line area of at least
/// `min_orphan_area` pixels, coloured with the area's mode colour in `reference`
/// (ties to the smaller colour) and centred on the area's pixel farthest from
/// the line; smaller fragments are counted and left without a dot.
pub fn seeds_from_reference(lineart: &[u8], reference: &[u8], width: u32, height: u32, line_threshold: u8, min_orphan_area: u32) -> (d: Derived)
    requires
        width * height < NONE,
        width < 0x8000_0000,
        height < 0x8000_0000,
        lineart@.len() == width * height * 4,
        reference@.len() >= width * height * 4,
    ensures
        derived_from(lineart@, reference@, width, height, line_threshold, min_orphan_area, d),
{
    let (w, h) = (width as usize, height as usize);
    let n = w * h;
    let line = line_mask(lineart, line_threshold);
    assert(line@.len() == n) by (nonlinear_arith)
        requires
            line@.len() == lineart@.len() / 4,
            lineart@.len() == n * 4,
    ;
    let depth = depth_from_line(&line, w, h);
    let keys: Vec<u32> = vec![0u32; n];
    let mut active: Vec<bool> = Vec::with_capacity(n);
    let mut i: usize = 0;
    while i < n
        invariant
            n == w * h,
            line@.len() == n,
            i <= n,
            active@ == line@.map_values(|l: bool| !l).take(i as int),
        decreases n - i,
    {
        active.push(!line[i]);
        assert(active@ =~= line@.map_values(|l: bool| !l).take(i as int + 1));
        i += 1;
    }
    assert(active@ =~= free_pixels(lineart@, line_threshold));
    assert(keys@ =~= zero_keys(n as int));
    let c = label_components(&keys, &active, w, h);
    let opaque_ref = opaque_copy(reference);
    assert(4 * n == lineart.len()) by (nonlinear_arith)
        requires
            lineart@.len() == n * 4,
    ;
    let mut out: Vec<u8> = vec![0u8; 4 * n];
    let mut taken: Vec<bool> = vec![false; n];
    let mut seeded: usize = 0;
    let mut skipped: usize = 0;
    let count = c.blobs.len();
    let ghost labels = c.labels@;
    let ghost free = free_pixels(lineart@, line_threshold);
    assert(w >= 1 && h >= 1 || n == 0);
    let mut k: usize = 0;
    while k < count
        invariant
            n == w * h,
            n < NONE,
            w < 0x8000_0000,
            h < 0x8000_0000,
            reference@.len() >= n * 4,
            opaque_ref@ == opaque(reference@),
            is_labelling(c, zero_keys(n as int), free, w as int, h as int),
            free == active@,
            active@.len() == n,
            labels == c.labels@,
            count == c.blobs@.len(),
            count == c.first@.len(),
            line_distance(depth@, line@, w as int, h as int),
            depth@.len() == n,
            out@.len() == 4 * n,
            taken@.len() == n,
            k <= count,
            seeded == big_blobs(c, min_orphan_area, k as int),
            seeded + skipped == k,
            forall|p: int| 0 <= p < n && (labels[p] == NONE || labels[p] >= k || c.blobs@[labels[p] as int]@.len() < min_orphan_area)
                ==> #[trigger] px(out@, p) == [0u8, 0u8, 0u8, 0u8],
            forall|p: int| 0 <= p < n && (labels[p] == NONE || labels[p] >= k) ==> !(#[trigger] taken@[p]),
            forall|j: int| 0 <= j < k && (#[trigger] c.blobs@[j])@.len() >= min_orphan_area ==> exists|a: u32|
                deepest(c.blobs@[j]@, depth@, a) && dot_painted(out@, c, free, DOT_AREA as int, j, a, w as int, h as int, blob_mode(reference@, c, j)),
        decreases count - k,
    {
        let blob = &c.blobs[k];
        proof {
            lemma_distinct_below(blob@, n as int);
        }
        if (blob.len() as u32) < min_orphan_area {
            skipped += 1;
        } else {
            seeded += 1;
            proof {
                let f = c.first@[k as int] as int;
                assert(labels[f] == k);
                assert(c.blobs@[labels[f] as int]@.contains(f as u32));
                assert(w >= 1 && h >= 1) by (nonlinear_arith)
                    requires
                        0 <= f < n,
                        n == w * h,
                ;
                assert(n * 4 <= reference@.len());
                lemma_solid_total_opaque(reference@, blob@, n as int);
            }
            let color = describe(blob, &opaque_ref, w, h).color;
            proof {
                lemma_mode_unique(opaque(reference@), blob@, color);
            }
            let anchor = deepest_pixel(blob, &depth);
            proof {
                let i = choose|i: int| 0 <= i < blob@.len() && blob@[i] == anchor;
                assert(labels[anchor as int] == k);
            }
            let ghost before = out@;
            paint_dot(&mut out, &mut taken, anchor as usize, &c.labels, &active, k as u32, color, DOT_AREA, w, h);
            proof {
                assert forall|j: int| 0 <= j < k + 1 && (#[trigger] c.blobs@[j])@.len() >= min_orphan_area implies exists|a: u32|
                    deepest(c.blobs@[j]@, depth@, a) && dot_painted(out@, c, free, DOT_AREA as int, j, a, w as int, h as int, blob_mode(reference@, c, j)) by {
                    if j < k {
                        let a = choose|a: u32| deepest(c.blobs@[j]@, depth@, a) && dot_painted(before, c, free, DOT_AREA as int, j, a, w as int, h as int, blob_mode(reference@, c, j));
                        assert forall|p: int| 0 <= p < w * h && c.labels@[p] == j implies #[trigger] px(out@, p) == px(before, p) by {}
                        assert(dot_painted(out@, c, free, DOT_AREA as int, j, a, w as int, h as int, blob_mode(reference@, c, j)));
                    } else {
                        assert(deepest(c.blobs@[j]@, depth@, anchor));
                        assert forall|p: int| 0 <= p < w * h && c.labels@[p] == j implies #[trigger] px(before, p) == [0u8, 0u8, 0u8, 0u8] by {}
                        assert(dot_painted(out@, c, free, DOT_AREA as int, j, anchor, w as int, h as int, blob_mode(reference@, c, j)));
                    }
                }
            }
        }
        k += 1;
    }
    proof {
        assert(big_blobs(c, min_orphan_area, count as int) == seeded);
        assert(line@ == line_mask_spec(lineart@, line_threshold));
        assert(is_labelling(c, zero_keys(width * height), free_pixels(lineart@, line_threshold), width as int, height as int));
        assert(line_distance(depth@, line_mask_spec(lineart@, line_threshold), width as int, height as int));
        let cnt = c.first@.len() as int;
        assert(seeded + skipped == cnt);
        assert(forall|k: int| 0 <= k < cnt && (#[trigger] c.blobs@[k])@.len() >= min_orphan_area ==> exists|a: u32|
                    deepest(c.blobs@[k]@, depth@, a) && dot_painted(out@, c, free_pixels(lineart@, line_threshold), DOT_AREA as int, k, a, width as int, height as int, blob_mode(reference@, c, k)));
    }
    Derived { seeds: out, seeded, skipped }
}

/// The per-area part of [`derived_from`]: each area of at least `min` pixels
/// shows exactly its dot from its deepest pixel, everything else is transparent.
spec fn laid_out(seeds: Seq<u8>, c: Components, free: Seq<bool>, depth: Seq<u32>, reference: Seq<u8>, min: u32, w: int, h: int) -> bool {
    &&& forall|k: int| 0 <= k < c.first@.len() && (#[trigger] c.blobs@[k])@.len() >= min ==> exists|a: u32|
        deepest(c.blobs@[k]@, depth, a) && dot_painted(seeds, c, free, DOT_AREA as int, k, a, w, h, blob_mode(reference, c, k))
    &&& forall|p: int| 0 <= p < w * h && (c.labels@[p] == NONE || c.blobs@[c.labels@[p] as int]@.len() < min)
        ==> #[trigger] px(seeds, p) == [0u8, 0u8, 0u8, 0u8]
}

/// The anchor of area `k`'s dot.
spec fn area_anchor(seeds: Seq<u8>, c: Components, free: Seq<bool>, depth: Seq<u32>, reference: Seq<u8>, k: int, w: int, h: int) -> u32 {
    choose|a: u32| deepest(c.blobs@[k]@, depth, a) && dot_painted(seeds, c, free, DOT_AREA as int, k, a, w, h, blob_mode(reference, c, k))
}

/// The dot of area `k`.
spec fn area_dot(seeds: Seq<u8>, c: Components, free: Seq<bool>, depth: Seq<u32>, reference: Seq<u8>, k: int, w: int, h: int) -> Seq<usize> {
    dot_pixels(c.labels@, k as u32, free, w, h, DOT_AREA as int, area_anchor(seeds, c, free, depth, reference, k, w, h) as usize)
}

proof fn lemma_area_anchor(seeds: Seq<u8>, c: Components, free: Seq<bool>, depth: Seq<u32>, reference: Seq<u8>, min: u32, w: int, h: int, k: int)
    requires
        is_labelling(c, zero_keys(w * h), free, w, h),
        laid_out(seeds, c, free, depth, reference, min, w, h),
        0 <= k < c.first@.len(),
        c.blobs@[k]@.len() >= min,
    ensures
        ({
            let a = area_anchor(seeds, c, free, depth, reference, k, w, h);
            &&& deepest(c.blobs@[k]@, depth, a)
            &&& dot_painted(seeds, c, free, DOT_AREA as int, k, a, w, h, blob_mode(reference, c, k))
            &&& a < w * h
            &&& c.labels@[a as int] == k
            &&& free[a as int]
        }),
{
    assert(c.blobs@[k]@.len() >= min);
    let a = area_anchor(seeds, c, free, depth, reference, k, w, h);
    assert(deepest(c.blobs@[k]@, depth, a));
    let i = choose|i: int| 0 <= i < c.blobs@[k]@.len() && c.blobs@[k]@[i] == a;
    assert(c.blobs@[k]@[i] < w * h && c.labels@[c.blobs@[k]@[i] as int] == k);
}

proof fn lemma_painted_iff(seeds: Seq<u8>, c: Components, free: Seq<bool>, depth: Seq<u32>, reference: Seq<u8>, min: u32, w: int, h: int, p: int)
    requires
        is_labelling(c, zero_keys(w * h), free, w, h),
        laid_out(seeds, c, free, depth, reference, min, w, h),
        seeds.len() == 4 * (w * h),
        0 <= p < w * h,
    ensures
        painted(seeds, w * h)[p] <==> ({
            let k = c.labels@[p];
            &&& k != NONE
            &&& c.blobs@[k as int]@.len() >= min
            &&& area_dot(seeds, c, free, depth, reference, k as int, w, h).contains(p as usize)
        }),
        painted(seeds, w * h)[p] ==> free[p],
{
    let k = c.labels@[p];
    assert(painted(seeds, w * h)[p] == (alpha(seeds, p) > 0));
    assert(px(seeds, p)[3] == alpha(seeds, p));
    if k == NONE || c.blobs@[k as int]@.len() < min {
        assert(px(seeds, p) == [0u8, 0u8, 0u8, 0u8]);
    } else {
        lemma_area_anchor(seeds, c, free, depth, reference, min, w, h, k as int);
        let a = area_anchor(seeds, c, free, depth, reference, k as int, w, h);
        assert(dot_painted(seeds, c, free, DOT_AREA as int, k as int, a, w, h, blob_mode(reference, c, k as int)));
        assert(c.labels@[p] == k as int);
        assert(free[p]);
    }
}

/// The dots of a derived seeds image are laid out as [`dots_layout`] asks, with
/// the areas of at least `min` pixels chosen.
proof fn lemma_derived_layout(seeds: Seq<u8>, c: Components, free: Seq<bool>, depth: Seq<u32>, reference: Seq<u8>, min: u32, w: int, h: int)
    requires
        w >= 0,
        h >= 0,
        is_labelling(c, zero_keys(w * h), free, w, h),
        laid_out(seeds, c, free, depth, reference, min, w, h),
        seeds.len() == 4 * (w * h),
    ensures
        dots_layout(
            painted(seeds, w * h),
            c,
            free,
            DOT_AREA as int,
            |k: int| c.blobs@[k]@.len() >= min,
            |k: int| area_anchor(seeds, c, free, depth, reference, k, w, h),
            w,
            h,
        ),
{
    let n = w * h;
    let marked = painted(seeds, n);
    let sel = |k: int| c.blobs@[k]@.len() >= min;
    let anchor = |k: int| area_anchor(seeds, c, free, depth, reference, k, w, h);
    assert forall|k: int| 0 <= k < c.first@.len() && #[trigger] sel(k) implies anchor(k) < n && c.labels@[anchor(k) as int] == k
        && free[anchor(k) as int] by {
        lemma_area_anchor(seeds, c, free, depth, reference, min, w, h, k);
    }
    assert forall|p: int| 0 <= p < n implies (#[trigger] marked[p] <==> (c.labels@[p] != NONE && sel(c.labels@[p] as int)
        && dot_of(c, free, DOT_AREA as int, anchor, w, h, c.labels@[p] as int).contains(p as usize))) by {
        lemma_painted_iff(seeds, c, free, depth, reference, min, w, h, p);
    }
    assert forall|p: int, d: int| 0 <= p < n && 0 <= d < 4 && #[trigger] has_nbr(w, h, p, d) && marked[p] && marked[nbr(w, p, d)]
        implies c.labels@[p] == c.labels@[nbr(w, p, d)] by {
        let q = nbr(w, p, d);
        assert(w >= 1 && h >= 1) by (nonlinear_arith)
            requires
                0 <= p < w * h,
                w >= 0,
                h >= 0,
        ;
        lemma_nbr(w, h, p, d);
        lemma_painted_iff(seeds, c, free, depth, reference, min, w, h, p);
        lemma_painted_iff(seeds, c, free, depth, reference, min, w, h, q);
        assert(zero_keys(n)[p] == zero_keys(n)[q]);
        assert(closed(c.labels@, zero_keys(n), free, w, h, n));
    }
}

/// The areas of at least `min` pixels among the first `m`: `big_blobs` of them.
proof fn lemma_big_set(c: Components, min: u32, m: int)
    requires
        0 <= m,
    ensures
        Set::new(|k: int| 0 <= k < m && c.blobs@[k]@.len() >= min).finite(),
        Set::new(|k: int| 0 <= k < m && c.blobs@[k]@.len() >= min).len() == big_blobs(c, min, m),
    decreases m,
{
    let s = Set::new(|k: int| 0 <= k < m && c.blobs@[k]@.len() >= min);
    if m == 0 {
        assert(s =~= Set::empty());
    } else {
        lemma_big_set(c, min, m - 1);
        let s0 = Set::new(|k: int| 0 <= k < m - 1 && c.blobs@[k]@.len() >= min);
        if c.blobs@[m - 1]@.len() >= min {
            assert(s =~= s0.insert(m - 1));
        } else {
            assert(s =~= s0);
        }
    }
}

/// `color` is the reference mode colour of a closed area of at least `min`
/// pixels of the line art.
pub open spec fn coloured_by_an_area(color: [u8; 3], lineart: Seq<u8>, reference: Seq<u8>, width: u32, height: u32, line_threshold: u8, min: u32) -> bool {
    exists|c: Components, k: int| #![trigger is_labelling(c, zero_keys(width * height), free_pixels(lineart, line_threshold), width as int, height as int), blob_mode(reference, c, k)] {
        &&& is_labelling(c, zero_keys(width * height), free_pixels(lineart, line_threshold), width as int, height as int)
        &&& 0 <= k < c.first@.len()
        &&& c.blobs@[k]@.len() >= min
        &&& color == blob_mode(reference, c, k)
    }
}

/// Reading a derived seeds image gives one seed per area that got a dot: the
/// painted pixels form exactly `seeded` 4-connected blobs, and each seed carries
/// the reference mode colour of an area.
pub proof fn law_one_seed_per_area(
    lineart: Seq<u8>,
    reference: Seq<u8>,
    width: u32,
    height: u32,
    line_threshold: u8,
    min_orphan_area: u32,
    d: Derived,
    out: Seq<Seed>,
)
    requires
        width * height < NONE,
        derived_from(lineart, reference, width, height, line_threshold, min_orphan_area, d),
        reads_as(d.seeds@, width, height, out),
    ensures
        out.len() == d.seeded,
        forall|i: int| 0 <= i < out.len() ==> #[trigger] coloured_by_an_area(out[i].color, lineart, reference, width, height, line_threshold, min_orphan_area),
{
    let n = width * height;
    let (w, h) = (width as int, height as int);
    let min = min_orphan_area;
    let free = free_pixels(lineart, line_threshold);
    let seeds = d.seeds@;
    let (c, depth) = choose|c: Components, depth: Seq<u32>| #![trigger is_labelling(c, zero_keys(n), free_pixels(lineart, line_threshold), width as int, height as int), line_distance(depth, line_mask_spec(lineart, line_threshold), width as int, height as int)] {
        let count = c.first@.len() as int;
        &&& is_labelling(c, zero_keys(n), free_pixels(lineart, line_threshold), width as int, height as int)
        &&& line_distance(depth, line_mask_spec(lineart, line_threshold), width as int, height as int)
        &&& d.seeded == big_blobs(c, min, count)
        &&& d.seeded + d.skipped == count
        &&& forall|k: int| 0 <= k < count && (#[trigger] c.blobs@[k])@.len() >= min ==> exists|a: u32|
            deepest(c.blobs@[k]@, depth, a) && dot_painted(d.seeds@, c, free_pixels(lineart, line_threshold), DOT_AREA as int, k, a, width as int, height as int, blob_mode(reference, c, k))
        &&& forall|p: int| 0 <= p < n && (c.labels@[p] == NONE || c.blobs@[c.labels@[p] as int]@.len() < min)
            ==> #[trigger] px(d.seeds@, p) == [0u8, 0u8, 0u8, 0u8]
    };
    assert(laid_out(seeds, c, free, depth, reference, min, w, h));
    let (c2, desc) = choose|c2: Components, desc: Seq<Seed>|
        #![trigger is_labelling(c2, zero_keys(width * height), painted(d.seeds@, width * height), width as int, height as int), desc.to_multiset()]
    {
        &&& is_labelling(c2, zero_keys(width * height), painted(d.seeds@, width * height), width as int, height as int)
        &&& desc.len() == c2.first@.len()
        &&& forall|k: int| 0 <= k < desc.len() ==> describes_blob(d.seeds@, width as int, c2.blobs@[k]@, #[trigger] desc[k])
        &&& out.to_multiset() == desc.to_multiset()
    };
    let sel = |k: int| c.blobs@[k]@.len() >= min;
    let anchor = |k: int| area_anchor(seeds, c, free, depth, reference, k, w, h);
    lemma_derived_layout(seeds, c, free, depth, reference, min, w, h);
    lemma_one_blob_per_dot(painted(seeds, n), c, c2, zero_keys(n), free, free, DOT_AREA as int, sel, anchor, w, h);
    lemma_big_set(c, min, c.first@.len() as int);
    assert(Set::new(|k: int| 0 <= k < c.first@.len() && sel(k)) =~= Set::new(|k: int| 0 <= k < c.first@.len() && c.blobs@[k]@.len() >= min));
    vstd::seq_lib::to_multiset_len(out);
    vstd::seq_lib::to_multiset_len(desc);
    assert forall|i: int| 0 <= i < out.len() implies #[trigger] coloured_by_an_area(out[i].color, lineart, reference, width, height, line_threshold, min_orphan_area) by {
        assert(out.contains(out[i]));
        vstd::seq_lib::to_multiset_contains(out, out[i]);
        vstd::seq_lib::to_multiset_contains(desc, out[i]);
        let l = choose|l: int| 0 <= l < desc.len() && desc[l] == out[i];
        let k = c.labels@[c2.first@[l] as int] as int;
        let col = blob_mode(reference, c, k);
        let blob = c2.blobs@[l]@;
        lemma_area_anchor(seeds, c, free, depth, reference, min, w, h, k);
        assert(dot_painted(seeds, c, free, DOT_AREA as int, k, anchor(k), w, h, col));
        assert forall|j: int| 0 <= j < blob.len() implies alpha(seeds, #[trigger] blob[j] as int) == 255 && px_rgb(seeds, blob[j] as int) == col by {
            let q = blob[j] as int;
            assert(q < n);
            assert(c.labels@[q] == k);
            assert(px(seeds, q) == solid(col));
            assert(px(seeds, q)[3] == alpha(seeds, q));
        }
        lemma_uniform_counts(seeds, blob, col, desc[l].color);
        assert(c2.blobs@[c2.labels@[c2.first@[l] as int] as int]@.contains(c2.first@[l]));
        assert(describes_blob(seeds, w, blob, desc[l]));
        assert(is_mode(seeds, blob, desc[l].color));
        assert(desc[l].color == col);
        assert(is_labelling(c, zero_keys(width * height), free_pixels(lineart, line_threshold), width as int, height as int));
    }
}

} // verus!