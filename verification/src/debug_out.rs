//! The attachments of `--debug-out`: pictures for the artist, who has no baker,
//! drawn so that lines, seeds and problems can be seen at a glance. All at
//! master resolution, produced after the master checks and before the bake
//! stops on an error: rejections are exactly when they are needed.
use vstd::prelude::*;
use crate::seeds::Seed;
use crate::segment::{Orphan, UNASSIGNED};
use crate::thumb::{composite, composite_spec, view_opt};
use crate::check::output::{claimed_stats, stats_of, OutputStats};

verus! {

pub const PREVIEW: &'static str = "preview.png";
pub const SEEDS_OVERLAY: &'static str = "seeds-overlay.png";
pub const REFERENCE_PREVIEW: &'static str = "reference-preview.png";
pub const REGIONS_JSON: &'static str = "regions.json";

/// Stroke sizes on a 4096-class master: large enough to survive viewing the
/// whole picture.
pub const DOT_RADIUS: i64 = 28;
pub const STROKE: i64 = 5;

/// Candidate colours of the preview palette.
pub const PREVIEW_COLORS: usize = 24;

/// How far apart two claimed pixels may be, with only unclaimed pixels between
/// them, and still make their regions neighbours: line art with its
/// anti-aliasing band is often a dozen pixels wide.
pub const MAX_LINE_GAP: usize = 64;

/// The candidate colours: `hsv(h, s, v)` for candidate `k`, with hue
/// `(15 k + 11 (k mod 2)) mod 360`, saturation 0.55 when `k` is a multiple of 3
/// and 0.90 otherwise, value 0.97 for even `k` and 0.66 for odd `k`, each
/// channel rounded to the nearest integer.
pub const PREVIEW_CANDIDATES: [[u8; 3]; 24] = [
    [247, 111, 111],
    [168, 82, 17],
    [247, 136, 25],
    [168, 162, 76],
    [247, 247, 25],
    [103, 168, 17],
    [179, 247, 111],
    [27, 168, 17],
    [25, 247, 25],
    [76, 168, 116],
    [25, 247, 136],
    [17, 168, 158],
    [111, 247, 247],
    [17, 103, 168],
    [25, 136, 247],
    [76, 82, 168],
    [25, 25, 247],
    [82, 17, 168],
    [179, 111, 247],
    [158, 17, 168],
    [247, 25, 247],
    [168, 76, 128],
    [247, 25, 136],
    [168, 17, 27],
];

/// Everything the attachments are drawn from.
pub struct DebugInput<'a> {
    pub id: &'a str,
    pub width: u32,
    pub height: u32,
    /// Labels after growing and merging small orphans but before closing: line
    /// pixels and orphan areas are still `UNASSIGNED`.
    pub labels: &'a [u32],
    pub seeds: &'a [Seed],
    pub line: &'a [bool],
    /// The line art composited onto white.
    pub lineart_white: &'a [u8],
    pub shade_white: Option<&'a [u8]>,
    /// `(seed that claimed the area first, seed that ran into it)`.
    pub collisions: &'a [(u32, u32)],
    pub orphans: &'a [Orphan],
}

/// The input is consistent: one label and one line flag per pixel, every label
/// a seed or `UNASSIGNED`, composites covering the canvas. The canvas's byte
/// count `4 * width * height` is a `u32`, as the preview's buffer size is
/// computed in `u32`.
pub open spec fn input_wf(input: DebugInput) -> bool {
    let n = input.width * input.height;
    &&& input.labels@.len() == n
    &&& input.line@.len() == n
    &&& 4 * n <= u32::MAX
    &&& input.seeds@.len() < UNASSIGNED
    &&& forall|i: int| 0 <= i < n ==> (#[trigger] input.labels@[i]) == UNASSIGNED || input.labels@[i] < input.seeds@.len()
    &&& input.lineart_white@.len() >= 4 * n
    &&& input.shade_white matches Some(s) ==> s@.len() >= 4 * n
}

/// Squared Euclidean distance of two colours.
pub open spec fn rgb_distance_spec(a: [u8; 3], b: [u8; 3]) -> int {
    (a[0] - b[0]) * (a[0] - b[0]) + (a[1] - b[1]) * (a[1] - b[1]) + (a[2] - b[2]) * (a[2] - b[2])
}

pub fn rgb_distance(a: [u8; 3], b: [u8; 3]) -> (d: i32)
    ensures
        d == rgb_distance_spec(a, b),
        0 <= d <= 195075,
{
    let d0 = a[0] as i32 - b[0] as i32;
    let d1 = a[1] as i32 - b[1] as i32;
    let d2 = a[2] as i32 - b[2] as i32;
    assert(0 <= d0 * d0 <= 65025 && 0 <= d1 * d1 <= 65025 && 0 <= d2 * d2 <= 65025) by (nonlinear_arith)
        requires
            -255 <= d0 <= 255,
            -255 <= d1 <= 255,
            -255 <= d2 <= 255,
    ;
    d0 * d0 + d1 * d1 + d2 * d2
}

/// Pixel `p` belongs to some region.
pub open spec fn claimed(labels: Seq<u32>, p: int) -> bool {
    labels[p] != UNASSIGNED
}

/// `p` and `q` are claimed pixels of one row, `q` after `p` by at most
/// `MAX_LINE_GAP`, with no claimed pixel between them.
pub open spec fn row_pair(labels: Seq<u32>, w: int, p: int, q: int) -> bool {
    &&& 0 <= p < q < labels.len()
    &&& p / w == q / w
    &&& q - p <= MAX_LINE_GAP
    &&& claimed(labels, p)
    &&& claimed(labels, q)
    &&& forall|r: int| p < r < q ==> !#[trigger] claimed(labels, r)
}

/// The same along a column.
pub open spec fn col_pair(labels: Seq<u32>, w: int, p: int, q: int) -> bool {
    &&& 0 <= p < q < labels.len()
    &&& p % w == q % w
    &&& q - p <= MAX_LINE_GAP * w
    &&& claimed(labels, p)
    &&& claimed(labels, q)
    &&& forall|t: int| 0 < t && p + t * w < q ==> !#[trigger] claimed(labels, p + t * w)
}

/// Regions `a` and `b` are neighbours: two of their pixels face each other
/// across at most `MAX_LINE_GAP` unclaimed pixels of a row or a column.
pub open spec fn touches(labels: Seq<u32>, w: int, a: int, b: int) -> bool {
    &&& a != b
    &&& exists|p: int, q: int| #![trigger labels[p], labels[q]] (row_pair(labels, w, p, q) || col_pair(labels, w, p, q))
        && ((labels[p] == a && labels[q] == b) || (labels[p] == b && labels[q] == a))
}

fn contains_id(v: &Vec<u32>, x: u32) -> (b: bool)
    ensures
        b == v@.contains(x),
{
    let mut i: usize = 0;
    while i < v.len()
        invariant
            i <= v@.len(),
            forall|j: int| 0 <= j < i ==> v@[j] != x,
        decreases v@.len() - i,
    {
        if v[i] == x {
            assert(v@[i as int] == x);
            return true;
        }
        i += 1;
    }
    false
}

/// Adds `b` to the neighbours of `a` unless it is there.
fn add_neighbour(adj: &mut Vec<Vec<u32>>, a: u32, b: u32)
    requires
        a < old(adj)@.len(),
    ensures
        final(adj)@.len() == old(adj)@.len(),
        final(adj)@[a as int]@.contains(b),
        forall|c: int, x: u32| 0 <= c < old(adj)@.len() && old(adj)@[c]@.contains(x) ==> #[trigger] final(adj)@[c]@.contains(x),
        forall|c: int, j: int| 0 <= c < final(adj)@.len() && 0 <= j < final(adj)@[c]@.len() ==>
            old(adj)@[c]@.contains(#[trigger] final(adj)@[c]@[j]) || (c == a && final(adj)@[c]@[j] == b),
{
    if !contains_id(&adj[a as usize], b) {
        let mut la = adj[a as usize].clone();
        assert(la@ =~= old(adj)@[a as int]@);
        let ghost before = la@;
        la.push(b);
        adj.set(a as usize, la);
        proof {
            assert forall|c: int, x: u32| 0 <= c < old(adj)@.len() && old(adj)@[c]@.contains(x) implies #[trigger] adj@[c]@.contains(x) by {
                if c == a {
                    let j = choose|j: int| 0 <= j < before.len() && before[j] == x;
                    assert(adj@[c]@[j] == x);
                }
            }
            assert(adj@[a as int]@[before.len() as int] == b);
            assert forall|c: int, j: int| 0 <= c < adj@.len() && 0 <= j < adj@[c]@.len() implies
                old(adj)@[c]@.contains(#[trigger] adj@[c]@[j]) || (c == a && adj@[c]@[j] == b) by {
                if c == a && j < before.len() {
                    assert(before[j] == adj@[c]@[j]);
                }
            }
        }
    }
}

/// `adj` lists, for every region, only regions that touch it.
pub open spec fn adj_sound(adj: Seq<Vec<u32>>, labels: Seq<u32>, w: int, n: int) -> bool {
    &&& adj.len() == n
    &&& forall|c: int, j: int| 0 <= c < n && 0 <= j < adj[c]@.len() ==> (#[trigger] adj[c]@[j]) < n && touches(labels, w, c, adj[c]@[j] as int)
}

/// Records that `a` and `b` touch.
fn link(adj: &mut Vec<Vec<u32>>, a: u32, b: u32, Ghost(labels): Ghost<Seq<u32>>, Ghost(w): Ghost<int>)
    requires
        a < old(adj)@.len(),
        b < old(adj)@.len(),
        a != b,
        touches(labels, w, a as int, b as int),
        adj_sound(old(adj)@, labels, w, old(adj)@.len() as int),
    ensures
        final(adj)@.len() == old(adj)@.len(),
        adj_sound(final(adj)@, labels, w, old(adj)@.len() as int),
        final(adj)@[a as int]@.contains(b),
        final(adj)@[b as int]@.contains(a),
        forall|c: int, x: u32| 0 <= c < old(adj)@.len() && old(adj)@[c]@.contains(x) ==> #[trigger] final(adj)@[c]@.contains(x),
{
    let ghost n = adj@.len() as int;
    let ghost a0 = adj@;
    add_neighbour(adj, a, b);
    let ghost a1 = adj@;
    add_neighbour(adj, b, a);
    proof {
        assert(touches(labels, w, b as int, a as int)) by {
            let (p, q) = choose|p: int, q: int| #![trigger labels[p], labels[q]] (row_pair(labels, w, p, q) || col_pair(labels, w, p, q))
                && ((labels[p] == a && labels[q] == b) || (labels[p] == b && labels[q] == a));
        }
        assert forall|c: int, j: int| 0 <= c < n && 0 <= j < adj@[c]@.len() implies (#[trigger] adj@[c]@[j]) < n
            && touches(labels, w, c, adj@[c]@[j] as int) by {
            let x = adj@[c]@[j];
            if !(c == b && x == a) {
                assert(a1[c]@.contains(x));
                let j1 = choose|j1: int| 0 <= j1 < a1[c]@.len() && a1[c]@[j1] == x;
                if !(c == a && x == b) {
                    assert(a0[c]@.contains(a1[c]@[j1]));
                    let j0 = choose|j0: int| 0 <= j0 < a0[c]@.len() && a0[c]@[j0] == x;
                    assert(a0[c]@[j0] < n && touches(labels, w, c, a0[c]@[j0] as int));
                }
            }
        }
    }
}

proof fn lemma_rc(w: int, x: int, y: int)
    requires
        w > 0,
        0 <= x < w,
        y >= 0,
    ensures
        (y * w + x) / w == y,
        (y * w + x) % w == x,
{
    assert((y * w + x) / w == y && (y * w + x) % w == x) by (nonlinear_arith)
        requires
            w > 0,
            0 <= x < w,
            y >= 0,
    ;
}

/// For every region, the regions it touches.
fn neighbours(labels: &[u32], w: usize, h: usize, n: usize) -> (adj: Vec<Vec<u32>>)
    requires
        labels@.len() == w * h,
        w * h <= u32::MAX,
        n < UNASSIGNED,
        forall|i: int| 0 <= i < labels@.len() ==> (#[trigger] labels@[i]) == UNASSIGNED || labels@[i] < n,
    ensures
        adj_sound(adj@, labels@, w as int, n as int),
        forall|a: int, b: int| 0 <= a < n && 0 <= b < n && #[trigger] touches(labels@, w as int, a, b) ==> adj@[a]@.contains(b as u32),
{
    let ghost ls = labels@;
    let ghost wi = w as int;
    let mut adj: Vec<Vec<u32>> = Vec::new();
    let mut k: usize = 0;
    while k < n
        invariant
            k <= n,
            adj@.len() == k,
            forall|c: int| 0 <= c < k ==> (#[trigger] adj@[c])@.len() == 0,
        decreases n - k,
    {
        adj.push(Vec::new());
        k += 1;
    }
    let mut y: usize = 0;
    while y < h
        invariant
            ls == labels@,
            wi == w,
            labels@.len() == w * h,
            w * h <= u32::MAX,
            n < UNASSIGNED,
            forall|i: int| 0 <= i < labels@.len() ==> (#[trigger] labels@[i]) == UNASSIGNED || labels@[i] < n,
            y <= h,
            adj_sound(adj@, ls, wi, n as int),
            forall|p: int, q: int| #[trigger] row_pair(ls, wi, p, q) && q < y * w && ls[p] != ls[q] ==> adj@[ls[p] as int]@.contains(ls[q])
                && adj@[ls[q] as int]@.contains(ls[p]),
        decreases h - y,
    {
        let mut prev: Option<(u32, usize)> = None;
        let mut x: usize = 0;
        while x < w
            invariant
                ls == labels@,
                wi == w,
                labels@.len() == w * h,
                w * h <= u32::MAX,
                n < UNASSIGNED,
                forall|i: int| 0 <= i < labels@.len() ==> (#[trigger] labels@[i]) == UNASSIGNED || labels@[i] < n,
                y < h,
                x <= w,
                adj_sound(adj@, ls, wi, n as int),
                forall|p: int, q: int| #[trigger] row_pair(ls, wi, p, q) && q < y * w + x && ls[p] != ls[q] ==> adj@[ls[p] as int]@.contains(ls[q])
                    && adj@[ls[q] as int]@.contains(ls[p]),
                match prev {
                    None => forall|r: int| y * w <= r < y * w + x ==> !#[trigger] claimed(ls, r),
                    Some((pid, px)) => px < x && claimed(ls, y * w + px) && ls[y * w + px] == pid
                        && forall|r: int| y * w + px < r < y * w + x ==> !#[trigger] claimed(ls, r),
                },
            decreases w - x,
        {
            assert(y * w + x < w * h) by (nonlinear_arith)
                requires
                    x < w,
                    y < h,
            ;
            let q = y * w + x;
            proof {
                lemma_rc(wi, x as int, y as int);
            }
            let id = labels[q];
            if id != UNASSIGNED {
                let ghost adj0 = adj@;
                if let Some((pid, px)) = prev {
                    if x - px <= MAX_LINE_GAP && pid != id {
                        proof {
                            let p = (y * w + px) as int;
                            lemma_rc(wi, px as int, y as int);
                            assert(row_pair(ls, wi, p, q as int));
                            assert(touches(ls, wi, pid as int, id as int));
                        }
                        link(&mut adj, pid, id, Ghost(ls), Ghost(wi));
                    }
                }
                proof {
                    assert forall|p: int, qq: int| #[trigger] row_pair(ls, wi, p, qq) && qq < y * w + x + 1 && ls[p] != ls[qq] implies adj@[ls[p] as int]@.contains(ls[qq])
                        && adj@[ls[qq] as int]@.contains(ls[p]) by {
                        if qq < y * w + x {
                            assert(adj0[ls[p] as int]@.contains(ls[qq]));
                            assert(adj0[ls[qq] as int]@.contains(ls[p]));
                        } else {
                            assert(qq == q);
                            lemma_rc(wi, (p % wi) as int, y as int);
                            assert(p / wi == y);
                            assert(p == y * w + p % wi) by (nonlinear_arith)
                                requires
                                    p / wi == y,
                                    wi > 0,
                                    wi == w,
                            ;
                            match prev {
                                None => {
                                    assert(!claimed(ls, p));
                                },
                                Some((pid, px)) => {
                                    let pp = (y * w + px) as int;
                                    if p < pp {
                                        assert(!claimed(ls, pp));
                                    } else if p > pp {
                                        assert(!claimed(ls, p));
                                    }
                                    assert(p == pp);
                                },
                            }
                        }
                    }
                }
                prev = Some((id, x));
            }
            x += 1;
        }
        assert(y * w + w == (y + 1) * w) by (nonlinear_arith);
        y += 1;
    }
    assert(h * w == w * h) by (nonlinear_arith);
    let mut x: usize = 0;
    while x < w
        invariant
            ls == labels@,
            wi == w,
            labels@.len() == w * h,
            w * h <= u32::MAX,
            n < UNASSIGNED,
            forall|i: int| 0 <= i < labels@.len() ==> (#[trigger] labels@[i]) == UNASSIGNED || labels@[i] < n,
            x <= w,
            adj_sound(adj@, ls, wi, n as int),
            forall|p: int, q: int| #[trigger] row_pair(ls, wi, p, q) && ls[p] != ls[q] ==> adj@[ls[p] as int]@.contains(ls[q])
                && adj@[ls[q] as int]@.contains(ls[p]),
            forall|p: int, q: int| #[trigger] col_pair(ls, wi, p, q) && q % wi < x && ls[p] != ls[q] ==> adj@[ls[p] as int]@.contains(ls[q])
                && adj@[ls[q] as int]@.contains(ls[p]),
        decreases w - x,
    {
        let mut prev: Option<(u32, usize)> = None;
        let mut y: usize = 0;
        while y < h
            invariant
                ls == labels@,
                wi == w,
                labels@.len() == w * h,
                w * h <= u32::MAX,
                n < UNASSIGNED,
                forall|i: int| 0 <= i < labels@.len() ==> (#[trigger] labels@[i]) == UNASSIGNED || labels@[i] < n,
                x < w,
                y <= h,
                adj_sound(adj@, ls, wi, n as int),
                forall|p: int, q: int| #[trigger] row_pair(ls, wi, p, q) && ls[p] != ls[q] ==> adj@[ls[p] as int]@.contains(ls[q])
                    && adj@[ls[q] as int]@.contains(ls[p]),
                forall|p: int, q: int| #[trigger] col_pair(ls, wi, p, q) && (q % wi < x || (q % wi == x && q / wi < y)) && ls[p] != ls[q]
                    ==> adj@[ls[p] as int]@.contains(ls[q]) && adj@[ls[q] as int]@.contains(ls[p]),
                match prev {
                    None => forall|t: int| 0 <= t < y ==> !#[trigger] claimed(ls, t * w + x),
                    Some((pid, py)) => py < y && claimed(ls, py * w + x) && ls[py * w + x] == pid
                        && forall|t: int| py < t < y ==> !#[trigger] claimed(ls, t * w + x),
                },
            decreases h - y,
        {
            assert(y * w + x < w * h) by (nonlinear_arith)
                requires
                    x < w,
                    y < h,
            ;
            let q = y * w + x;
            proof {
                lemma_rc(wi, x as int, y as int);
            }
            let id = labels[q];
            if id != UNASSIGNED {
                let ghost adj0 = adj@;
                if let Some((pid, py)) = prev {
                    if y - py <= MAX_LINE_GAP && pid != id {
                        proof {
                            let p = (py * w + x) as int;
                            lemma_rc(wi, x as int, py as int);
                            assert(q - p == (y - py) * w) by (nonlinear_arith)
                                requires
                                    p == py * w + x,
                                    q == y * w + x,
                            ;
                            assert(q - p <= MAX_LINE_GAP * w) by (nonlinear_arith)
                                requires
                                    q - p == (y - py) * w,
                                    y - py <= MAX_LINE_GAP,
                            ;
                            assert forall|t: int| 0 < t && p + t * wi < q implies !#[trigger] claimed(ls, p + t * wi) by {
                                assert(p + t * wi == (py + t) * w + x) by (nonlinear_arith)
                                    requires
                                        p == py * w + x,
                                        wi == w,
                                ;
                                assert(py + t < y) by (nonlinear_arith)
                                    requires
                                        p + t * wi < q,
                                        p == py * w + x,
                                        q == y * w + x,
                                        wi == w,
                                        w > 0,
                                ;
                                assert(!claimed(ls, (py + t) * w + x));
                            }
                            assert(col_pair(ls, wi, p, q as int));
                            assert(touches(ls, wi, pid as int, id as int));
                        }
                        link(&mut adj, pid, id, Ghost(ls), Ghost(wi));
                    }
                }
                proof {
                    assert forall|p: int, qq: int| #[trigger] col_pair(ls, wi, p, qq) && (qq % wi < x || (qq % wi == x && qq / wi < y + 1)) && ls[p] != ls[qq]
                        implies adj@[ls[p] as int]@.contains(ls[qq]) && adj@[ls[qq] as int]@.contains(ls[p]) by {
                        if qq % wi < x || (qq % wi == x && qq / wi < y) {
                            assert(adj0[ls[p] as int]@.contains(ls[qq]));
                            assert(adj0[ls[qq] as int]@.contains(ls[p]));
                        } else {
                            assert(qq == (qq / wi) * wi + qq % wi) by (nonlinear_arith)
                                requires
                                    wi > 0,
                            ;
                            assert(qq == q);
                            let yp = p / wi;
                            assert(p == (p / wi) * wi + p % wi) by (nonlinear_arith)
                                requires
                                    wi > 0,
                            ;
                            assert(p == yp * w + x && yp < y) by (nonlinear_arith)
                                requires
                                    p == (p / wi) * wi + p % wi,
                                    p % wi == x,
                                    yp == p / wi,
                                    wi == w,
                                    p < q,
                                    q == y * w + x,
                            ;
                            match prev {
                                None => {
                                    assert(!claimed(ls, yp * w + x));
                                },
                                Some((pid, py)) => {
                                    let pp = (py * w + x) as int;
                                    if yp < py {
                                        let t = py - yp;
                                        assert(p + t * wi == pp && pp < q) by (nonlinear_arith)
                                            requires
                                                p == yp * w + x,
                                                pp == py * w + x,
                                                t == py - yp,
                                                wi == w,
                                                py < y,
                                                q == y * w + x,
                                                x < w,
                                        ;
                                        assert(!claimed(ls, p + t * wi));
                                    } else if yp > py {
                                        assert(!claimed(ls, yp * w + x));
                                    }
                                    assert(p == pp);
                                    assert(y - py <= MAX_LINE_GAP) by (nonlinear_arith)
                                        requires
                                            q - pp <= MAX_LINE_GAP * w,
                                            pp == py * w + x,
                                            q == y * w + x,
                                            x < w,
                                    ;
                                },
                            }
                        }
                    }
                }
                prev = Some((id, y));
            } else {
                proof {
                    assert forall|p: int, qq: int| #[trigger] col_pair(ls, wi, p, qq) && (qq % wi < x || (qq % wi == x && qq / wi < y + 1)) && ls[p] != ls[qq]
                        implies adj@[ls[p] as int]@.contains(ls[qq]) && adj@[ls[qq] as int]@.contains(ls[p]) by {
                        if !(qq % wi < x || (qq % wi == x && qq / wi < y)) {
                            assert(qq == (qq / wi) * wi + qq % wi) by (nonlinear_arith)
                                requires
                                    wi > 0,
                            ;
                            assert(qq == q);
                        }
                    }
                }
            }
            y += 1;
        }
        proof {
            assert forall|p: int, q: int| #[trigger] col_pair(ls, wi, p, q) && q % wi < x + 1 && ls[p] != ls[q]
                implies adj@[ls[p] as int]@.contains(ls[q]) && adj@[ls[q] as int]@.contains(ls[p]) by {
                if q % wi == x {
                    assert(q / wi < h) by (nonlinear_arith)
                        requires
                            0 <= q < w * h,
                            wi == w,
                            w > 0,
                    ;
                }
            }
        }
        x += 1;
    }
    proof {
        assert forall|a: int, b: int| 0 <= a < n && 0 <= b < n && #[trigger] touches(ls, wi, a, b) implies adj@[a]@.contains(b as u32) by {
            let (p, q) = choose|p: int, q: int| #![trigger ls[p], ls[q]] (row_pair(ls, wi, p, q) || col_pair(ls, wi, p, q))
                && ((ls[p] == a && ls[q] == b) || (ls[p] == b && ls[q] == a));
            if col_pair(ls, wi, p, q) {
                assert(0 <= q % wi < wi) by (nonlinear_arith)
                    requires
                        wi > 0,
                ;
            }
        }
    }
    adj
}

/// Distance between candidate colours `k` and `c`.
pub open spec fn cand_dist(k: int, c: int) -> int {
    rgb_distance_spec(PREVIEW_CANDIDATES@[k], PREVIEW_CANDIDATES@[c])
}

/// `sc` is the score of candidate `k` for region `id`: its smallest distance to
/// the colour chosen for a touching region of smaller id, `i32::MAX` when there
/// is none.
pub open spec fn is_score(labels: Seq<u32>, w: int, chosen: Seq<usize>, id: int, k: int, sc: int) -> bool {
    &&& forall|nb: int| 0 <= nb < id && #[trigger] touches(labels, w, nb, id) ==> sc <= cand_dist(k, chosen[nb] as int)
    &&& (exists|nb: int| 0 <= nb < id && #[trigger] touches(labels, w, nb, id) && sc == cand_dist(k, chosen[nb] as int))
        || (sc == i32::MAX && forall|nb: int| 0 <= nb < id ==> !#[trigger] touches(labels, w, nb, id))
}

/// `k` is the candidate picked for region `id`: the best score, the smaller
/// candidate on a tie.
pub open spec fn picks(labels: Seq<u32>, w: int, chosen: Seq<usize>, id: int, k: int) -> bool {
    &&& 0 <= k < PREVIEW_COLORS
    &&& exists|sc: int| #[trigger] is_score(labels, w, chosen.take(id), id, k, sc) && forall|k2: int, sc2: int| 0 <= k2 < PREVIEW_COLORS
        && #[trigger] is_score(labels, w, chosen.take(id), id, k2, sc2) ==> sc2 < sc || (sc2 == sc && k <= k2)
}

/// The greedy colouring: regions by increasing id, each picking the candidate
/// farthest from the colours of its already coloured neighbours.
pub open spec fn greedy_choice(labels: Seq<u32>, w: int, n: int, chosen: Seq<usize>) -> bool {
    &&& chosen.len() == n
    &&& forall|id: int| 0 <= id < n ==> #[trigger] picks(labels, w, chosen, id, chosen[id] as int)
}

proof fn lemma_score_unique(labels: Seq<u32>, w: int, chosen: Seq<usize>, id: int, k: int, a: int, b: int)
    requires
        is_score(labels, w, chosen, id, k, a),
        is_score(labels, w, chosen, id, k, b),
    ensures
        a == b,
{
    if exists|nb: int| 0 <= nb < id && #[trigger] touches(labels, w, nb, id) && a == cand_dist(k, chosen[nb] as int) {
        let nb = choose|nb: int| 0 <= nb < id && #[trigger] touches(labels, w, nb, id) && a == cand_dist(k, chosen[nb] as int);
        if exists|nb2: int| 0 <= nb2 < id && #[trigger] touches(labels, w, nb2, id) && b == cand_dist(k, chosen[nb2] as int) {
            let nb2 = choose|nb2: int| 0 <= nb2 < id && #[trigger] touches(labels, w, nb2, id) && b == cand_dist(k, chosen[nb2] as int);
            assert(a <= b && b <= a);
        } else {
            assert(!touches(labels, w, nb, id));
        }
    } else if exists|nb2: int| 0 <= nb2 < id && #[trigger] touches(labels, w, nb2, id) && b == cand_dist(k, chosen[nb2] as int) {
        let nb2 = choose|nb2: int| 0 <= nb2 < id && #[trigger] touches(labels, w, nb2, id) && b == cand_dist(k, chosen[nb2] as int);
        assert(!touches(labels, w, nb2, id));
    }
}

/// The score of candidate `k` for region `id`, from the regions it touches.
fn score(touching: &Vec<u32>, chosen: &Vec<usize>, id: usize, k: usize, Ghost(labels): Ghost<Seq<u32>>, Ghost(w): Ghost<int>) -> (sc: i32)
    requires
        k < PREVIEW_COLORS,
        chosen@.len() == id,
        forall|j: int| 0 <= j < id ==> (#[trigger] chosen@[j]) < PREVIEW_COLORS,
        forall|nb: int| 0 <= nb < id ==> (touching@.contains(nb as u32) <==> #[trigger] touches(labels, w, nb, id as int)),
    ensures
        is_score(labels, w, chosen@, id as int, k as int, sc as int),
{
    let mut m: i32 = i32::MAX;
    let mut j: usize = 0;
    while j < touching.len()
        invariant
            k < PREVIEW_COLORS,
            chosen@.len() == id,
            forall|t: int| 0 <= t < id ==> (#[trigger] chosen@[t]) < PREVIEW_COLORS,
            j <= touching@.len(),
            forall|t: int| 0 <= t < j && (touching@[t] as int) < id ==> m <= cand_dist(k as int, chosen@[touching@[t] as int] as int),
            m == i32::MAX || exists|t: int| 0 <= t < j && (touching@[t] as int) < id && m == cand_dist(k as int, chosen@[touching@[t] as int] as int),
        decreases touching@.len() - j,
    {
        let nb = touching[j] as usize;
        if nb < id {
            let d = rgb_distance(PREVIEW_CANDIDATES[k], PREVIEW_CANDIDATES[chosen[nb]]);
            if d < m {
                m = d;
            }
        }
        j += 1;
    }
    proof {
        assert forall|nb: int| 0 <= nb < id && #[trigger] touches(labels, w, nb, id as int) implies m <= cand_dist(k as int, chosen@[nb] as int) by {
            assert(touching@.contains(nb as u32));
            let t = choose|t: int| 0 <= t < touching@.len() && touching@[t] == nb as u32;
        }
        if m != i32::MAX {
            let t = choose|t: int| 0 <= t < touching@.len() && (touching@[t] as int) < id && m == cand_dist(k as int, chosen@[touching@[t] as int] as int);
            let nb = touching@[t] as int;
            assert(touching@.contains(nb as u32));
            assert(touches(labels, w, nb, id as int));
        } else {
            if exists|nb: int| 0 <= nb < id && #[trigger] touches(labels, w, nb, id as int) {
                let nb = choose|nb: int| 0 <= nb < id && #[trigger] touches(labels, w, nb, id as int);
                assert(touching@.contains(nb as u32));
                let t = choose|t: int| 0 <= t < touching@.len() && touching@[t] == nb as u32;
                assert(m <= cand_dist(k as int, chosen@[nb] as int));
                assert(cand_dist(k as int, chosen@[nb] as int) <= 195075) by {
                    let a = PREVIEW_CANDIDATES@[k as int];
                    let b = PREVIEW_CANDIDATES@[chosen@[nb] as int];
                    assert(rgb_distance_spec(a, b) <= 195075) by (nonlinear_arith)
                        requires
                            0 <= a[0] <= 255, 0 <= a[1] <= 255, 0 <= a[2] <= 255,
                            0 <= b[0] <= 255, 0 <= b[1] <= 255, 0 <= b[2] <= 255,
                    ;
                }
            }
        }
    }
    m
}

/// The preview colour of every region: a colour far from those of the regions it
/// touches, so that two regions that should be separate but merged show up as
/// one patch of colour.
pub fn preview_palette(input: &DebugInput) -> (palette: Vec<[u8; 3]>)
    requires
        input_wf(*input),
    ensures
        exists|chosen: Seq<usize>| #[trigger] greedy_choice(input.labels@, input.width as int, input.seeds@.len() as int, chosen)
            && palette@.len() == chosen.len()
            && forall|id: int| 0 <= id < chosen.len() ==> #[trigger] palette@[id] == PREVIEW_CANDIDATES@[chosen[id] as int],
{
    let n = input.seeds.len();
    let (w, h) = (input.width as usize, input.height as usize);
    let ghost ls = input.labels@;
    let ghost wi = w as int;
    let adj = neighbours(input.labels, w, h, n);
    let mut chosen: Vec<usize> = Vec::new();
    let mut palette: Vec<[u8; 3]> = Vec::new();
    let mut id: usize = 0;
    while id < n
        invariant
            n == input.seeds@.len(),
            ls == input.labels@,
            wi == w,
            adj_sound(adj@, ls, wi, n as int),
            forall|a: int, b: int| 0 <= a < n && 0 <= b < n && #[trigger] touches(ls, wi, a, b) ==> adj@[a]@.contains(b as u32),
            id <= n,
            chosen@.len() == id,
            palette@.len() == id,
            forall|j: int| 0 <= j < id ==> (#[trigger] chosen@[j]) < PREVIEW_COLORS,
            forall|j: int| 0 <= j < id ==> #[trigger] picks(ls, wi, chosen@, j, chosen@[j] as int),
            forall|j: int| 0 <= j < id ==> #[trigger] palette@[j] == PREVIEW_CANDIDATES@[chosen@[j] as int],
        decreases n - id,
    {
        let touching = &adj[id];
        proof {
            assert forall|nb: int| 0 <= nb < id implies (touching@.contains(nb as u32) <==> #[trigger] touches(ls, wi, nb, id as int)) by {
                if touching@.contains(nb as u32) {
                    let j = choose|j: int| 0 <= j < touching@.len() && touching@[j] == nb as u32;
                    assert(touches(ls, wi, id as int, adj@[id as int]@[j] as int));
                    let (p, q) = choose|p: int, q: int| #![trigger ls[p], ls[q]] (row_pair(ls, wi, p, q) || col_pair(ls, wi, p, q))
                        && ((ls[p] == id && ls[q] == nb) || (ls[p] == nb && ls[q] == id));
                }
                if touches(ls, wi, nb, id as int) {
                    let (p, q) = choose|p: int, q: int| #![trigger ls[p], ls[q]] (row_pair(ls, wi, p, q) || col_pair(ls, wi, p, q))
                        && ((ls[p] == nb && ls[q] == id) || (ls[p] == id && ls[q] == nb));
                    assert(touches(ls, wi, id as int, nb));
                }
            }
        }
        let mut best_k: usize = 0;
        let mut best_s = score(touching, &chosen, id, 0, Ghost(ls), Ghost(wi));
        let mut k: usize = 1;
        while k < PREVIEW_COLORS
            invariant
                chosen@.len() == id,
                forall|j: int| 0 <= j < id ==> (#[trigger] chosen@[j]) < PREVIEW_COLORS,
                forall|nb: int| 0 <= nb < id ==> (touching@.contains(nb as u32) <==> #[trigger] touches(ls, wi, nb, id as int)),
                1 <= k <= PREVIEW_COLORS,
                best_k < k,
                is_score(ls, wi, chosen@, id as int, best_k as int, best_s as int),
                forall|k2: int, sc2: int| 0 <= k2 < k && #[trigger] is_score(ls, wi, chosen@, id as int, k2, sc2)
                    ==> sc2 < best_s || (sc2 == best_s && best_k <= k2),
            decreases PREVIEW_COLORS - k,
        {
            let s = score(touching, &chosen, id, k, Ghost(ls), Ghost(wi));
            proof {
                assert forall|k2: int, sc2: int| 0 <= k2 < k + 1 && #[trigger] is_score(ls, wi, chosen@, id as int, k2, sc2)
                    implies (if s > best_s { sc2 < s || (sc2 == s && k <= k2) } else { sc2 < best_s || (sc2 == best_s && best_k <= k2) }) by {
                    if k2 == k {
                        lemma_score_unique(ls, wi, chosen@, id as int, k as int, s as int, sc2);
                    }
                }
            }
            if s > best_s {
                best_k = k;
                best_s = s;
            }
            k += 1;
        }
        let ghost before = chosen@;
        chosen.push(best_k);
        palette.push(PREVIEW_CANDIDATES[best_k]);
        proof {
            assert(before.take(id as int) =~= before);
            assert forall|j: int| 0 <= j < id + 1 implies #[trigger] picks(ls, wi, chosen@, j, chosen@[j] as int) by {
                assert(chosen@.take(j) =~= before.take(j));
                if j < id {
                    assert(picks(ls, wi, before, j, before[j] as int));
                    assert(chosen@[j] == before[j]);
                } else {
                    assert(chosen@.take(j) =~= before);
                }
            }
        }
        id += 1;
    }
    assert(greedy_choice(ls, wi, n as int, chosen@));
    palette
}

/// `img` (RGBA, `w` pixels wide) with every pixel `(x, y)` that satisfies `pred`
/// set to `rgb`, alpha untouched.
pub open spec fn paint(img: Seq<u8>, w: int, pred: spec_fn(int, int) -> bool, rgb: [u8; 3]) -> Seq<u8> {
    Seq::new(img.len(), |i: int| if i % 4 < 3 && pred((i / 4) % w, (i / 4) / w) { rgb[i % 4] } else { img[i] })
}

/// The single pixel `(x, y)`.
pub open spec fn point(x: int, y: int) -> spec_fn(int, int) -> bool {
    |px: int, py: int| px == x && py == y
}

/// Painting twice in one colour paints the union.
proof fn lemma_paint_union(img: Seq<u8>, w: int, p: spec_fn(int, int) -> bool, q: spec_fn(int, int) -> bool, rgb: [u8; 3])
    ensures
        paint(paint(img, w, p, rgb), w, q, rgb) == paint(img, w, |x: int, y: int| p(x, y) || q(x, y), rgb),
{
    assert(paint(paint(img, w, p, rgb), w, q, rgb) =~= paint(img, w, |x: int, y: int| p(x, y) || q(x, y), rgb));
}

/// Painting with equivalent predicates gives the same picture.
proof fn lemma_paint_ext(img: Seq<u8>, w: int, h: int, p: spec_fn(int, int) -> bool, q: spec_fn(int, int) -> bool, rgb: [u8; 3])
    requires
        w > 0,
        img.len() == 4 * (w * h),
        forall|x: int, y: int| 0 <= x < w && 0 <= y < h ==> (#[trigger] p(x, y) <==> q(x, y)),
    ensures
        paint(img, w, p, rgb) == paint(img, w, q, rgb),
{
    assert forall|i: int| 0 <= i < img.len() implies #[trigger] paint(img, w, p, rgb)[i] == paint(img, w, q, rgb)[i] by {
        let pp = i / 4;
        assert(0 <= pp % w < w && 0 <= pp / w < h) by (nonlinear_arith)
            requires
                w > 0,
                0 <= i < 4 * (w * h),
                pp == i / 4,
        ;
    }
    assert(paint(img, w, p, rgb) =~= paint(img, w, q, rgb));
}

/// A picture being drawn on: RGBA, `w`×`h`.
pub struct Overlay {
    pub out: Vec<u8>,
    pub w: u32,
    pub h: u32,
}

impl Overlay {
    pub open spec fn wf(&self) -> bool {
        &&& self.out@.len() == 4 * (self.w * self.h)
        &&& 4 * (self.w * self.h) <= u32::MAX
    }

    /// Sets pixel `(x, y)`, if it lies on the picture.
    pub fn put(&mut self, x: i64, y: i64, rgb: [u8; 3])
        requires
            old(self).wf(),
        ensures
            final(self).wf(),
            final(self).w == old(self).w,
            final(self).h == old(self).h,
            final(self).out@ == paint(old(self).out@, old(self).w as int, point(x as int, y as int), rgb),
    {
        let ghost w = self.w as int;
        let ghost h = self.h as int;
        let ghost o = self.out@;
        if x < 0 || y < 0 || x >= self.w as i64 || y >= self.h as i64 {
            proof {
                assert forall|i: int| 0 <= i < o.len() implies #[trigger] paint(o, w, point(x as int, y as int), rgb)[i] == o[i] by {
                    let pp = i / 4;
                    assert(0 <= pp % w < w && 0 <= pp / w < h) by (nonlinear_arith)
                        requires
                            0 <= i < 4 * (w * h),
                            pp == i / 4,
                            w > 0,
                    ;
                }
                assert(paint(o, w, point(x as int, y as int), rgb) =~= o);
            }
            return;
        }
        assert(((y as int) * w + x) * 4 + 3 < o.len()) by (nonlinear_arith)
            requires
                0 <= x < w,
                0 <= y < h,
                o.len() == 4 * (w * h),
        ;
        let i = ((y as usize) * (self.w as usize) + x as usize) * 4;
        self.out.set(i, rgb[0]);
        self.out.set(i + 1, rgb[1]);
        self.out.set(i + 2, rgb[2]);
        proof {
            assert forall|j: int| 0 <= j < o.len() implies #[trigger] self.out@[j] == paint(o, w, point(x as int, y as int), rgb)[j] by {
                let pp = j / 4;
                assert(pp == (pp / w) * w + pp % w) by (nonlinear_arith)
                    requires
                        w > 0,
                ;
                if i <= j < i + 3 {
                    assert(pp == (y as int) * w + x);
                    assert(pp % w == x && pp / w == y) by (nonlinear_arith)
                        requires
                            pp == (y as int) * w + x,
                            0 <= x < w,
                            y >= 0,
                    ;
                } else if pp % w == x && pp / w == y && j % 4 < 3 {
                    assert(pp == (y as int) * w + x);
                }
            }
            assert(self.out@ =~= paint(o, w, point(x as int, y as int), rgb));
        }
    }
}

/// Pixels of the disc of radius `r` around `(cx, cy)` whose row offset is below
/// `dy`, or equal to `dy` with a column offset below `dx`; with `dy = r + 1`, the
/// whole disc.
pub open spec fn disc_upto(cx: int, cy: int, r: int, dy: int, dx: int) -> spec_fn(int, int) -> bool {
    |px: int, py: int| (px - cx) * (px - cx) + (py - cy) * (py - cy) <= r * r
        && (py - cy < dy || (py - cy == dy && px - cx < dx))
}

/// The disc of radius `r` around `(cx, cy)`.
pub open spec fn disc_at(cx: int, cy: int, r: int) -> spec_fn(int, int) -> bool {
    |px: int, py: int| (px - cx) * (px - cx) + (py - cy) * (py - cy) <= r * r
}

/// The ring of the disc of radius `r` outside the disc of radius `max(r - t, 0)`.
pub open spec fn ring_at(cx: int, cy: int, r: int, t: int) -> spec_fn(int, int) -> bool {
    let inner = if r - t > 0 { r - t } else { 0 };
    |px: int, py: int| (px - cx) * (px - cx) + (py - cy) * (py - cy) <= r * r
        && (px - cx) * (px - cx) + (py - cy) * (py - cy) > inner * inner
}

/// The ring pixels with row offset below `dy`, or equal with column offset below `dx`.
pub open spec fn ring_upto(cx: int, cy: int, r: int, t: int, dy: int, dx: int) -> spec_fn(int, int) -> bool {
    let inner = if r - t > 0 { r - t } else { 0 };
    |px: int, py: int| (px - cx) * (px - cx) + (py - cy) * (py - cy) <= r * r
        && (px - cx) * (px - cx) + (py - cy) * (py - cy) > inner * inner
        && (py - cy < dy || (py - cy == dy && px - cx < dx))
}

proof fn lemma_offsets_in_disc(a: int, b: int, r: int)
    requires
        r >= 0,
        a * a + b * b <= r * r,
    ensures
        -r <= a <= r,
        -r <= b <= r,
{
    assert(-r <= a <= r && -r <= b <= r) by (nonlinear_arith)
        requires
            r >= 0,
            a * a + b * b <= r * r,
    ;
}

impl Overlay {
    /// Fills the disc of radius `r` around `center`.
    pub fn disc(&mut self, center: (u32, u32), r: i64, rgb: [u8; 3])
        requires
            old(self).wf(),
            0 <= r <= 1000,
        ensures
            final(self).wf(),
            final(self).w == old(self).w,
            final(self).h == old(self).h,
            final(self).out@ == paint(old(self).out@, old(self).w as int, disc_at(center.0 as int, center.1 as int, r as int), rgb),
    {
        let ghost o = self.out@;
        let ghost w = self.w as int;
        let ghost h = self.h as int;
        let (cx, cy) = (center.0 as i64, center.1 as i64);
        proof {
            if w > 0 {
                assert forall|x: int, y: int| 0 <= x < w && 0 <= y < h implies (#[trigger] disc_upto(cx as int, cy as int, r as int, -r as int, -r as int)(x, y)
                    <==> (|x: int, y: int| false)(x, y)) by {
                    if (x - cx) * (x - cx) + (y - cy) * (y - cy) <= r * r {
                        lemma_offsets_in_disc(x - cx, y - cy, r as int);
                    }
                }
                lemma_paint_ext(o, w, h, disc_upto(cx as int, cy as int, r as int, -r as int, -r as int), |x: int, y: int| false, rgb);
            }
            assert(paint(o, w, |x: int, y: int| false, rgb) =~= o);
            assert(self.out@ =~= paint(o, w, disc_upto(cx as int, cy as int, r as int, -r as int, -r as int), rgb));
        }
        let mut dy: i64 = -r;
        while dy <= r
            invariant
                self.wf(),
                self.w == w,
                self.h == h,
                o.len() == 4 * (w * h),
                0 <= r <= 1000,
                -r <= dy <= r + 1,
                0 <= cx < 0x1_0000_0000,
                0 <= cy < 0x1_0000_0000,
                self.out@ == paint(o, w, disc_upto(cx as int, cy as int, r as int, dy as int, -r as int), rgb),
            decreases r + 1 - dy,
        {
            let mut dx: i64 = -r;
            while dx <= r
                invariant
                    self.wf(),
                    self.w == w,
                    self.h == h,
                    o.len() == 4 * (w * h),
                    0 <= r <= 1000,
                    -r <= dy <= r,
                    -r <= dx <= r + 1,
                    0 <= cx < 0x1_0000_0000,
                    0 <= cy < 0x1_0000_0000,
                    self.out@ == paint(o, w, disc_upto(cx as int, cy as int, r as int, dy as int, dx as int), rgb),
                decreases r + 1 - dx,
            {
                let ghost before = self.out@;
                assert(0 <= dx * dx <= 1_002_001 && 0 <= dy * dy <= 1_002_001 && r * r <= 1_000_000) by (nonlinear_arith)
                    requires
                        -1001 <= dx <= 1001,
                        -1001 <= dy <= 1001,
                        0 <= r <= 1000,
                ;
                if dx * dx + dy * dy <= r * r {
                    self.put(cx + dx, cy + dy, rgb);
                    proof {
                        lemma_paint_union(o, w, disc_upto(cx as int, cy as int, r as int, dy as int, dx as int), point((cx + dx) as int, (cy + dy) as int), rgb);
                    }
                }
                proof {
                    if w > 0 {
                        lemma_paint_ext(o, w, h, |x: int, y: int| disc_upto(cx as int, cy as int, r as int, dy as int, dx as int)(x, y)
                            || ((dx * dx + dy * dy <= r * r) && point((cx + dx) as int, (cy + dy) as int)(x, y)),
                            disc_upto(cx as int, cy as int, r as int, dy as int, dx + 1), rgb);
                        if dx * dx + dy * dy > r * r {
                            assert(self.out@ == before);
                            lemma_paint_ext(o, w, h, disc_upto(cx as int, cy as int, r as int, dy as int, dx as int),
                                disc_upto(cx as int, cy as int, r as int, dy as int, dx + 1), rgb);
                        }
                    } else {
                        assert(self.out@ =~= paint(o, w, disc_upto(cx as int, cy as int, r as int, dy as int, dx + 1), rgb));
                    }
                }
                dx += 1;
            }
            proof {
                if w > 0 {
                    assert forall|x: int, y: int| 0 <= x < w && 0 <= y < h implies (#[trigger] disc_upto(cx as int, cy as int, r as int, dy as int, r + 1)(x, y)
                        <==> disc_upto(cx as int, cy as int, r as int, dy + 1, -r as int)(x, y)) by {
                        if (x - cx) * (x - cx) + (y - cy) * (y - cy) <= r * r {
                            lemma_offsets_in_disc(x - cx, y - cy, r as int);
                        }
                    }
                    lemma_paint_ext(o, w, h, disc_upto(cx as int, cy as int, r as int, dy as int, r + 1),
                        disc_upto(cx as int, cy as int, r as int, dy + 1, -r as int), rgb);
                } else {
                    assert(self.out@ =~= paint(o, w, disc_upto(cx as int, cy as int, r as int, dy + 1, -r as int), rgb));
                }
            }
            dy += 1;
        }
        proof {
            if w > 0 {
                assert forall|x: int, y: int| 0 <= x < w && 0 <= y < h implies (#[trigger] disc_upto(cx as int, cy as int, r as int, r + 1, -r as int)(x, y)
                    <==> disc_at(cx as int, cy as int, r as int)(x, y)) by {
                    if (x - cx) * (x - cx) + (y - cy) * (y - cy) <= r * r {
                        lemma_offsets_in_disc(x - cx, y - cy, r as int);
                    }
                }
                lemma_paint_ext(o, w, h, disc_upto(cx as int, cy as int, r as int, r + 1, -r as int), disc_at(cx as int, cy as int, r as int), rgb);
            } else {
                assert(self.out@ =~= paint(o, w, disc_at(cx as int, cy as int, r as int), rgb));
            }
        }
    }

    /// Strokes a ring `thickness` wide just inside the circle of radius `r`.
    pub fn ring(&mut self, center: (u32, u32), r: i64, thickness: i64, rgb: [u8; 3])
        requires
            old(self).wf(),
            0 <= r <= 1000,
            0 <= thickness <= 1000,
        ensures
            final(self).wf(),
            final(self).w == old(self).w,
            final(self).h == old(self).h,
            final(self).out@ == paint(old(self).out@, old(self).w as int, ring_at(center.0 as int, center.1 as int, r as int, thickness as int), rgb),
    {
        let ghost o = self.out@;
        let ghost w = self.w as int;
        let ghost h = self.h as int;
        let (cx, cy) = (center.0 as i64, center.1 as i64);
        let inner = if r - thickness > 0 { r - thickness } else { 0 };
        proof {
            if w > 0 {
                assert forall|x: int, y: int| 0 <= x < w && 0 <= y < h implies (#[trigger] ring_upto(cx as int, cy as int, r as int, thickness as int, -r as int, -r as int)(x, y)
                    <==> (|x: int, y: int| false)(x, y)) by {
                    if (x - cx) * (x - cx) + (y - cy) * (y - cy) <= r * r {
                        lemma_offsets_in_disc(x - cx, y - cy, r as int);
                    }
                }
                lemma_paint_ext(o, w, h, ring_upto(cx as int, cy as int, r as int, thickness as int, -r as int, -r as int), |x: int, y: int| false, rgb);
            }
            assert(paint(o, w, |x: int, y: int| false, rgb) =~= o);
            assert(self.out@ =~= paint(o, w, ring_upto(cx as int, cy as int, r as int, thickness as int, -r as int, -r as int), rgb));
        }
        let mut dy: i64 = -r;
        while dy <= r
            invariant
                self.wf(),
                self.w == w,
                self.h == h,
                o.len() == 4 * (w * h),
                0 <= r <= 1000,
                inner == (if r - thickness > 0 { r - thickness } else { 0 }),
                    0 <= thickness <= 1000,
                -r <= dy <= r + 1,
                0 <= cx < 0x1_0000_0000,
                0 <= cy < 0x1_0000_0000,
                self.out@ == paint(o, w, ring_upto(cx as int, cy as int, r as int, thickness as int, dy as int, -r as int), rgb),
            decreases r + 1 - dy,
        {
            let mut dx: i64 = -r;
            while dx <= r
                invariant
                    self.wf(),
                    self.w == w,
                    self.h == h,
                    o.len() == 4 * (w * h),
                    0 <= r <= 1000,
                    inner == (if r - thickness > 0 { r - thickness } else { 0 }),
                    0 <= thickness <= 1000,
                    -r <= dy <= r,
                    -r <= dx <= r + 1,
                    0 <= cx < 0x1_0000_0000,
                    0 <= cy < 0x1_0000_0000,
                    self.out@ == paint(o, w, ring_upto(cx as int, cy as int, r as int, thickness as int, dy as int, dx as int), rgb),
                decreases r + 1 - dx,
            {
                let ghost before = self.out@;
                assert(0 <= dx * dx <= 1_002_001 && 0 <= dy * dy <= 1_002_001 && r * r <= 1_000_000) by (nonlinear_arith)
                    requires
                        -1001 <= dx <= 1001,
                        -1001 <= dy <= 1001,
                        0 <= r <= 1000,
                ;
                assert(inner * inner <= 1_000_000) by (nonlinear_arith)
                    requires
                        0 <= inner <= 1000,
                ;
                let d = dx * dx + dy * dy;
                if d <= r * r && d > inner * inner {
                    self.put(cx + dx, cy + dy, rgb);
                    proof {
                        lemma_paint_union(o, w, ring_upto(cx as int, cy as int, r as int, thickness as int, dy as int, dx as int), point((cx + dx) as int, (cy + dy) as int), rgb);
                    }
                }
                proof {
                    if w > 0 {
                        lemma_paint_ext(o, w, h, |x: int, y: int| ring_upto(cx as int, cy as int, r as int, thickness as int, dy as int, dx as int)(x, y)
                            || ((dx * dx + dy * dy <= r * r && dx * dx + dy * dy > inner * inner) && point((cx + dx) as int, (cy + dy) as int)(x, y)),
                            ring_upto(cx as int, cy as int, r as int, thickness as int, dy as int, dx + 1), rgb);
                        if !(dx * dx + dy * dy <= r * r && dx * dx + dy * dy > inner * inner) {
                            assert(self.out@ == before);
                            lemma_paint_ext(o, w, h, ring_upto(cx as int, cy as int, r as int, thickness as int, dy as int, dx as int),
                                ring_upto(cx as int, cy as int, r as int, thickness as int, dy as int, dx + 1), rgb);
                        }
                    } else {
                        assert(self.out@ =~= paint(o, w, ring_upto(cx as int, cy as int, r as int, thickness as int, dy as int, dx + 1), rgb));
                    }
                }
                dx += 1;
            }
            proof {
                if w > 0 {
                    assert forall|x: int, y: int| 0 <= x < w && 0 <= y < h implies (#[trigger] ring_upto(cx as int, cy as int, r as int, thickness as int, dy as int, r + 1)(x, y)
                        <==> ring_upto(cx as int, cy as int, r as int, thickness as int, dy + 1, -r as int)(x, y)) by {
                        if (x - cx) * (x - cx) + (y - cy) * (y - cy) <= r * r {
                            lemma_offsets_in_disc(x - cx, y - cy, r as int);
                        }
                    }
                    lemma_paint_ext(o, w, h, ring_upto(cx as int, cy as int, r as int, thickness as int, dy as int, r + 1),
                        ring_upto(cx as int, cy as int, r as int, thickness as int, dy + 1, -r as int), rgb);
                } else {
                    assert(self.out@ =~= paint(o, w, ring_upto(cx as int, cy as int, r as int, thickness as int, dy + 1, -r as int), rgb));
                }
            }
            dy += 1;
        }
        proof {
            if w > 0 {
                assert forall|x: int, y: int| 0 <= x < w && 0 <= y < h implies (#[trigger] ring_upto(cx as int, cy as int, r as int, thickness as int, r + 1, -r as int)(x, y)
                    <==> ring_at(cx as int, cy as int, r as int, thickness as int)(x, y)) by {
                    if (x - cx) * (x - cx) + (y - cy) * (y - cy) <= r * r {
                        lemma_offsets_in_disc(x - cx, y - cy, r as int);
                    }
                }
                lemma_paint_ext(o, w, h, ring_upto(cx as int, cy as int, r as int, thickness as int, r + 1, -r as int), ring_at(cx as int, cy as int, r as int, thickness as int), rgb);
            } else {
                assert(self.out@ =~= paint(o, w, ring_at(cx as int, cy as int, r as int, thickness as int), rgb));
            }
        }
    }
}

/// The box `[x0, x0 + bw) × [y0, y0 + bh)`.
pub open spec fn box_at(x0: int, y0: int, bw: int, bh: int) -> spec_fn(int, int) -> bool {
    |px: int, py: int| x0 <= px < x0 + bw && y0 <= py < y0 + bh
}

/// The box rows above `yy`, and the first `xx - x0` pixels of row `yy`.
pub open spec fn box_upto(x0: int, y0: int, bw: int, yy: int, xx: int) -> spec_fn(int, int) -> bool {
    |px: int, py: int| x0 <= px < x0 + bw && y0 <= py && (py < yy || (py == yy && px < xx))
}

/// The frame of a bounding box, `STROKE` pixels thick, drawn inwards.
pub open spec fn outline_at(b: [u32; 4]) -> spec_fn(int, int) -> bool {
    let (x, y, w, h) = (b[0] as int, b[1] as int, b[2] as int, b[3] as int);
    |px: int, py: int| box_at(x, y, w, STROKE as int)(px, py) || box_at(x, y + h - STROKE, w, STROKE as int)(px, py)
        || box_at(x, y, STROKE as int, h)(px, py) || box_at(x + w - STROKE, y, STROKE as int, h)(px, py)
}

impl Overlay {
    /// Fills a box, clipped to the picture.
    pub fn fill_box(&mut self, x0: i64, y0: i64, bw: i64, bh: i64, rgb: [u8; 3])
        requires
            old(self).wf(),
            -0x4_0000_0000 <= x0 <= 0x4_0000_0000,
            -0x4_0000_0000 <= y0 <= 0x4_0000_0000,
            0 <= bw <= 0x1_0000_0000,
            0 <= bh <= 0x1_0000_0000,
        ensures
            final(self).wf(),
            final(self).w == old(self).w,
            final(self).h == old(self).h,
            final(self).out@ == paint(old(self).out@, old(self).w as int, box_at(x0 as int, y0 as int, bw as int, bh as int), rgb),
    {
        let ghost o = self.out@;
        let ghost w = self.w as int;
        let ghost h = self.h as int;
        proof {
            assert(paint(o, w, box_upto(x0 as int, y0 as int, bw as int, y0 as int, x0 as int), rgb) =~= o);
        }
        let mut yy = y0;
        while yy < y0 + bh
            invariant
                self.wf(),
                self.w == w,
                self.h == h,
                o.len() == 4 * (w * h),
                -0x4_0000_0000 <= x0 <= 0x4_0000_0000,
                -0x4_0000_0000 <= y0 <= 0x4_0000_0000,
                0 <= bw <= 0x1_0000_0000,
                0 <= bh <= 0x1_0000_0000,
                y0 <= yy <= y0 + bh,
                self.out@ == paint(o, w, box_upto(x0 as int, y0 as int, bw as int, yy as int, x0 as int), rgb),
            decreases y0 + bh - yy,
        {
            let mut xx = x0;
            while xx < x0 + bw
                invariant
                    self.wf(),
                    self.w == w,
                    self.h == h,
                    o.len() == 4 * (w * h),
                    -0x4_0000_0000 <= x0 <= 0x4_0000_0000,
                    -0x4_0000_0000 <= y0 <= 0x4_0000_0000,
                    0 <= bw <= 0x1_0000_0000,
                    0 <= bh <= 0x1_0000_0000,
                    y0 <= yy < y0 + bh,
                    x0 <= xx <= x0 + bw,
                    self.out@ == paint(o, w, box_upto(x0 as int, y0 as int, bw as int, yy as int, xx as int), rgb),
                decreases x0 + bw - xx,
            {
                self.put(xx, yy, rgb);
                proof {
                    lemma_paint_union(o, w, box_upto(x0 as int, y0 as int, bw as int, yy as int, xx as int), point(xx as int, yy as int), rgb);
                    assert(paint(o, w, |a: int, b: int| box_upto(x0 as int, y0 as int, bw as int, yy as int, xx as int)(a, b)
                        || point(xx as int, yy as int)(a, b), rgb) =~= paint(o, w, box_upto(x0 as int, y0 as int, bw as int, yy as int, xx + 1), rgb));
                }
                xx += 1;
            }
            proof {
                assert(paint(o, w, box_upto(x0 as int, y0 as int, bw as int, yy as int, x0 + bw), rgb)
                    =~= paint(o, w, box_upto(x0 as int, y0 as int, bw as int, yy + 1, x0 as int), rgb));
            }
            yy += 1;
        }
        assert(paint(o, w, box_upto(x0 as int, y0 as int, bw as int, y0 + bh, x0 as int), rgb)
            =~= paint(o, w, box_at(x0 as int, y0 as int, bw as int, bh as int), rgb));
    }

    /// Frames `bbox` with a border `STROKE` pixels thick, inside the box.
    pub fn rect_outline(&mut self, bbox: [u32; 4], rgb: [u8; 3])
        requires
            old(self).wf(),
        ensures
            final(self).wf(),
            final(self).w == old(self).w,
            final(self).h == old(self).h,
            final(self).out@ == paint(old(self).out@, old(self).w as int, outline_at(bbox), rgb),
    {
        let ghost o = self.out@;
        let ghost w = self.w as int;
        let (x, y, bw, bh) = (bbox[0] as i64, bbox[1] as i64, bbox[2] as i64, bbox[3] as i64);
        self.fill_box(x, y, bw, STROKE, rgb);
        self.fill_box(x, y + bh - STROKE, bw, STROKE, rgb);
        self.fill_box(x, y, STROKE, bh, rgb);
        self.fill_box(x + bw - STROKE, y, STROKE, bh, rgb);
        proof {
            let b1 = box_at(x as int, y as int, bw as int, STROKE as int);
            let b2 = box_at(x as int, y + bh - STROKE, bw as int, STROKE as int);
            let b3 = box_at(x as int, y as int, STROKE as int, bh as int);
            let b4 = box_at(x + bw - STROKE, y as int, STROKE as int, bh as int);
            lemma_paint_union(o, w, b1, b2, rgb);
            let u12 = |a: int, b: int| b1(a, b) || b2(a, b);
            lemma_paint_union(o, w, u12, b3, rgb);
            let u123 = |a: int, b: int| u12(a, b) || b3(a, b);
            lemma_paint_union(o, w, u123, b4, rgb);
            assert(paint(o, w, |a: int, b: int| u123(a, b) || b4(a, b), rgb) =~= paint(o, w, outline_at(bbox), rgb));
        }
    }
}

/// The points Bresenham's algorithm visits from `(x, y)` to `(x1, y1)`, given
/// its step state; `fuel` bounds the walk.
pub open spec fn bresenham(x: int, y: int, x1: int, y1: int, dx: int, dy: int, sx: int, sy: int, err: int, fuel: nat) -> Seq<(int, int)>
    decreases fuel,
{
    if fuel == 0 {
        Seq::empty()
    } else if x == x1 && y == y1 {
        seq![(x, y)]
    } else {
        let e2 = 2 * err;
        let err1 = if e2 >= dy { err + dy } else { err };
        let nx = if e2 >= dy { x + sx } else { x };
        let err2 = if e2 <= dx { err1 + dx } else { err1 };
        let ny = if e2 <= dx { y + sy } else { y };
        seq![(x, y)] + bresenham(nx, ny, x1, y1, dx, dy, sx, sy, err2, (fuel - 1) as nat)
    }
}

/// The points of the segment from `a` to `b`.
pub open spec fn line_points(a: (u32, u32), b: (u32, u32)) -> Seq<(int, int)> {
    let dx = if a.0 <= b.0 { b.0 - a.0 } else { a.0 - b.0 };
    let dy = if a.1 <= b.1 { a.1 - b.1 } else { b.1 - a.1 };
    let sx = if a.0 < b.0 { 1int } else { -1int };
    let sy = if a.1 < b.1 { 1int } else { -1int };
    bresenham(a.0 as int, a.1 as int, b.0 as int, b.1 as int, dx, dy, sx, sy, dx + dy, (dx - dy + 1) as nat)
}

/// A square of side `2 STROKE + 1` around every point of `pts`.
pub open spec fn stroke_at(pts: Seq<(int, int)>) -> spec_fn(int, int) -> bool {
    |px: int, py: int| exists|k: int| 0 <= k < pts.len() && #[trigger] box_at(pts[k].0 - STROKE, pts[k].1 - STROKE, 2 * STROKE + 1, 2 * STROKE + 1)(px, py)
}

impl Overlay {
    /// A segment from `a` to `b`, `2 STROKE + 1` pixels thick.
    pub fn line(&mut self, a: (u32, u32), b: (u32, u32), rgb: [u8; 3])
        requires
            old(self).wf(),
            a.0 < 0x4000_0000,
            a.1 < 0x4000_0000,
            b.0 < 0x4000_0000,
            b.1 < 0x4000_0000,
        ensures
            final(self).wf(),
            final(self).w == old(self).w,
            final(self).h == old(self).h,
            final(self).out@ == paint(old(self).out@, old(self).w as int, stroke_at(line_points(a, b)), rgb),
    {
        let ghost o = self.out@;
        let ghost w = self.w as int;
        let ghost h = self.h;
        let (mut x, mut y) = (a.0 as i64, a.1 as i64);
        let (x1, y1) = (b.0 as i64, b.1 as i64);
        let dx: i64 = if x <= x1 { x1 - x } else { x - x1 };
        let dy: i64 = if y <= y1 { y - y1 } else { y1 - y };
        let sx: i64 = if x < x1 { 1 } else { -1 };
        let sy: i64 = if y < y1 { 1 } else { -1 };
        let mut err: i64 = dx + dy;
        let ghost full = line_points(a, b);
        let ghost mut visited: Seq<(int, int)> = Seq::empty();
        let ghost mut ux: int = 0;
        let ghost mut uy: int = 0;
        let ghost mut fuel: nat = (dx - dy + 1) as nat;
        proof {
            assert(paint(o, w, stroke_at(visited), rgb) =~= o);
            assert(dx * (1 + uy) + dy * (1 + ux) == dx + dy) by (nonlinear_arith)
                requires
                    ux == 0,
                    uy == 0,
            ;
            assert(full =~= visited + bresenham(x as int, y as int, x1 as int, y1 as int, dx as int, dy as int, sx as int, sy as int, err as int, fuel));
        }
        loop
            invariant_except_break
                self.wf(),
                self.w == w,
                self.h == h,
                o.len() == 4 * (w * h),
                0 <= dx < 0x4000_0000,
                -0x4000_0000 < dy <= 0,
                sx == (if a.0 < b.0 { 1int } else { -1int }),
                sy == (if a.1 < b.1 { 1int } else { -1int }),
                x1 == b.0,
                y1 == b.1,
                dx == (if a.0 <= b.0 { b.0 - a.0 } else { a.0 - b.0 }),
                dy == (if a.1 <= b.1 { a.1 - b.1 } else { b.1 - a.1 }),
                0 <= ux <= dx,
                0 <= uy <= -dy,
                x == (if a.0 < b.0 { a.0 + ux } else { a.0 - ux }),
                y == (if a.1 < b.1 { a.1 + uy } else { a.1 - uy }),
                err == dx * (1 + uy) + dy * (1 + ux),
                fuel >= (dx - ux) + (-dy - uy) + 1,
                full == visited + bresenham(x as int, y as int, x1 as int, y1 as int, dx as int, dy as int, sx as int, sy as int, err as int, fuel),
                self.out@ == paint(o, w, stroke_at(visited), rgb),
            ensures
                self.wf(),
                self.w == w,
                self.h == h,
                self.out@ == paint(o, w, stroke_at(full), rgb),
            decreases fuel,
        {
            proof {
                if a.0 < b.0 {
                    assert(x <= b.0);
                } else {
                    assert(x <= a.0 && x >= a.0 - dx);
                }
                if a.1 < b.1 {
                    assert(y <= b.1);
                } else {
                    assert(y <= a.1 && y >= a.1 + dy);
                }
            }
            self.fill_box(x - STROKE, y - STROKE, 2 * STROKE + 1, 2 * STROKE + 1, rgb);
            proof {
                let pt = (x as int, y as int);
                let bx = box_at(x - STROKE, y - STROKE, 2 * STROKE + 1, 2 * STROKE + 1);
                lemma_paint_union(o, w, stroke_at(visited), bx, rgb);
                let nv = visited.push(pt);
                assert forall|px: int, py: int| (stroke_at(visited)(px, py) || bx(px, py)) == #[trigger] stroke_at(nv)(px, py) by {
                    if stroke_at(visited)(px, py) {
                        let k = choose|k: int| 0 <= k < visited.len() && #[trigger] box_at(visited[k].0 - STROKE, visited[k].1 - STROKE, 2 * STROKE + 1, 2 * STROKE + 1)(px, py);
                        assert(nv[k] == visited[k]);
                        assert(box_at(nv[k].0 - STROKE, nv[k].1 - STROKE, 2 * STROKE + 1, 2 * STROKE + 1)(px, py));
                    }
                    if bx(px, py) {
                        let k = visited.len() as int;
                        assert(nv[k] == pt);
                        assert(box_at(nv[k].0 - STROKE, nv[k].1 - STROKE, 2 * STROKE + 1, 2 * STROKE + 1)(px, py));
                    }
                    if stroke_at(nv)(px, py) {
                        let k = choose|k: int| 0 <= k < nv.len() && #[trigger] box_at(nv[k].0 - STROKE, nv[k].1 - STROKE, 2 * STROKE + 1, 2 * STROKE + 1)(px, py);
                        if k < visited.len() {
                            assert(nv[k] == visited[k]);
                            assert(box_at(visited[k].0 - STROKE, visited[k].1 - STROKE, 2 * STROKE + 1, 2 * STROKE + 1)(px, py));
                        }
                    }
                }
                assert(paint(o, w, |p: int, q: int| stroke_at(visited)(p, q) || bx(p, q), rgb) =~= paint(o, w, stroke_at(nv), rgb));
            }
            if x == x1 && y == y1 {
                proof {
                    assert(ux == dx && uy == -dy);
                    assert(fuel >= 1);
                    visited = visited.push((x as int, y as int));
                    assert(full =~= visited);
                }
                break;
            }
            assert(-0x1000_0000_0000_0000 <= err <= 0x1000_0000_0000_0000) by (nonlinear_arith)
                requires
                    err == dx * (1 + uy) + dy * (1 + ux),
                    0 <= dx < 0x4000_0000,
                    -0x4000_0000 < dy <= 0,
                    0 <= ux <= dx,
                    0 <= uy <= -dy,
            ;
            let e2 = 2 * err;
            proof {
                let nx = if e2 >= dy { x + sx } else { x as int };
                let ny = if e2 <= dx { y + sy } else { y as int };
                let err1 = if e2 >= dy { err + dy } else { err as int };
                let err2 = if e2 <= dx { err1 + dx } else { err1 };
                assert(bresenham(x as int, y as int, x1 as int, y1 as int, dx as int, dy as int, sx as int, sy as int, err as int, fuel)
                    == seq![(x as int, y as int)] + bresenham(nx, ny, x1 as int, y1 as int, dx as int, dy as int, sx as int, sy as int, err2, (fuel - 1) as nat));
                assert(full =~= visited.push((x as int, y as int)) + bresenham(nx, ny, x1 as int, y1 as int, dx as int, dy as int, sx as int, sy as int, err2, (fuel - 1) as nat));
                if e2 >= dy {
                    assert(ux < dx) by (nonlinear_arith)
                        requires
                            e2 == 2 * err,
                            e2 >= dy,
                            err == dx * (1 + uy) + dy * (1 + ux),
                            0 <= ux <= dx,
                            0 <= uy <= -dy,
                            ux == dx ==> uy < -dy,
                            dy <= 0,
                    ;
                }
                if e2 <= dx {
                    assert(uy < -dy) by (nonlinear_arith)
                        requires
                            e2 == 2 * err,
                            e2 <= dx,
                            err == dx * (1 + uy) + dy * (1 + ux),
                            0 <= ux <= dx,
                            0 <= uy <= -dy,
                            uy == -dy ==> ux < dx,
                            dy <= 0,
                            dx >= 0,
                    ;
                }
                visited = visited.push((x as int, y as int));
            }
            let ghost err0 = err as int;
            let ghost ux0 = ux;
            let ghost uy0 = uy;
            if e2 >= dy {
                err += dy;
                x += sx;
                proof {
                    ux = ux + 1;
                }
            }
            if e2 <= dx {
                err += dx;
                y += sy;
                proof {
                    uy = uy + 1;
                }
            }
            proof {
                fuel = (fuel - 1) as nat;
                assert(err == dx * (1 + uy) + dy * (1 + ux)) by (nonlinear_arith)
                    requires
                        err0 == dx * (1 + uy0) + dy * (1 + ux0),
                        err == err0 + (if e2 >= dy { dy as int } else { 0int }) + (if e2 <= dx { dx as int } else { 0int }),
                        ux == ux0 + (if e2 >= dy { 1int } else { 0int }),
                        uy == uy0 + (if e2 <= dx { 1int } else { 0int }),
                ;
            }
        }
    }
}

/// The preview picture: line pixels dark, unclaimed pixels white, every region
/// in the colour its preview candidate `chosen` gives it.
pub open spec fn preview_spec(labels: Seq<u32>, line: Seq<bool>, chosen: Seq<usize>) -> Seq<u8> {
    Seq::new(4 * labels.len(), |i: int| {
        let p = i / 4;
        if i % 4 == 3 {
            255u8
        } else if line[p] {
            40u8
        } else if labels[p] == UNASSIGNED {
            255u8
        } else {
            PREVIEW_CANDIDATES@[chosen[labels[p] as int] as int][i % 4]
        }
    })
}

/// The region map in high-contrast colours, with the line art: two areas that
/// should be separate but merged show as one patch of one colour.
pub fn preview(input: &DebugInput) -> (out: Vec<u8>)
    requires
        input_wf(*input),
    ensures
        exists|chosen: Seq<usize>| #[trigger] greedy_choice(input.labels@, input.width as int, input.seeds@.len() as int, chosen)
            && out@ == preview_spec(input.labels@, input.line@, chosen),
{
    let palette = preview_palette(input);
    let ghost chosen = choose|chosen: Seq<usize>| #[trigger] greedy_choice(input.labels@, input.width as int, input.seeds@.len() as int, chosen)
        && palette@.len() == chosen.len()
        && forall|id: int| 0 <= id < chosen.len() ==> #[trigger] palette@[id] == PREVIEW_CANDIDATES@[chosen[id] as int];
    let n = input.labels.len();
    let ghost spec = preview_spec(input.labels@, input.line@, chosen);
    let mut out: Vec<u8> = vec![255u8; 4 * n];
    let mut i: usize = 0;
    while i < n
        invariant
            input_wf(*input),
            n == input.labels@.len(),
            palette@.len() == input.seeds@.len(),
            chosen.len() == input.seeds@.len(),
            forall|id: int| 0 <= id < chosen.len() ==> #[trigger] palette@[id] == PREVIEW_CANDIDATES@[chosen[id] as int],
            spec == preview_spec(input.labels@, input.line@, chosen),
            i <= n,
            out@.len() == 4 * n,
            forall|j: int| 0 <= j < 4 * n ==> #[trigger] out@[j] == (if j < 4 * i { spec[j] } else { 255u8 }),
        decreases n - i,
    {
        let id = input.labels[i];
        let rgb: [u8; 3] = if input.line[i] {
            [40, 40, 40]
        } else if id == UNASSIGNED {
            [255, 255, 255]
        } else {
            palette[id as usize]
        };
        out.set(4 * i, rgb[0]);
        out.set(4 * i + 1, rgb[1]);
        out.set(4 * i + 2, rgb[2]);
        proof {
            assert forall|j: int| 0 <= j < 4 * n implies #[trigger] out@[j] == (if j < 4 * (i + 1) { spec[j] } else { 255u8 }) by {
                if 4 * i <= j < 4 * i + 4 {
                    assert(j / 4 == i);
                }
            }
        }
        i += 1;
    }
    assert(out@ =~= spec);
    out
}

/// The labels with every unclaimed pixel sent to the extra white region `white`.
pub open spec fn whitened(labels: Seq<u32>, white: u32) -> Seq<u32> {
    labels.map_values(|id: u32| if id == UNASSIGNED { white } else { id })
}

/// The seeds' suggested colours, followed by white.
pub open spec fn suggested_with_white(seeds: Seq<Seed>) -> Seq<[u8; 3]> {
    seeds.map_values(|s: Seed| s.color).push([255u8, 255u8, 255u8])
}

/// The whole picture in the suggested colours, with line art and shade: the
/// artist's view of the palette. Unclaimed pixels are white.
pub fn reference_preview(input: &DebugInput) -> (out: Vec<u8>)
    requires
        input_wf(*input),
    ensures
        out@ == composite_spec(whitened(input.labels@, input.seeds@.len() as u32), suggested_with_white(input.seeds@),
            input.lineart_white@, view_opt(input.shade_white)),
{
    let white = input.seeds.len() as u32;
    let n = input.labels.len();
    let mut labels: Vec<u32> = Vec::with_capacity(n);
    let mut i: usize = 0;
    while i < n
        invariant
            n == input.labels@.len(),
            i <= n,
            labels@ == whitened(input.labels@, white).take(i as int),
        decreases n - i,
    {
        let id = input.labels[i];
        labels.push(if id == UNASSIGNED { white } else { id });
        assert(labels@ =~= whitened(input.labels@, white).take(i as int + 1));
        i += 1;
    }
    assert(labels@ =~= whitened(input.labels@, white));
    let mut suggested: Vec<[u8; 3]> = Vec::with_capacity(input.seeds.len() + 1);
    let mut k: usize = 0;
    while k < input.seeds.len()
        invariant
            k <= input.seeds@.len(),
            suggested@ == input.seeds@.map_values(|s: Seed| s.color).take(k as int),
        decreases input.seeds@.len() - k,
    {
        suggested.push(input.seeds[k].color);
        assert(suggested@ =~= input.seeds@.map_values(|s: Seed| s.color).take(k as int + 1));
        k += 1;
    }
    suggested.push([255, 255, 255]);
    assert(suggested@ =~= suggested_with_white(input.seeds@));
    composite(&labels, &suggested, input.lineart_white, input.shade_white)
}

/// The statistics of `regions.json` at master resolution, before closing: for
/// each region its area, bounding box and centroid, unclaimed pixels skipped.
pub fn region_stats(input: &DebugInput) -> (s: OutputStats)
    requires
        input_wf(*input),
    ensures
        s.area@.len() == input.seeds@.len(),
        s.bbox@.len() == input.seeds@.len(),
        s.centroid@.len() == input.seeds@.len(),
        forall|v: int| 0 <= v < input.seeds@.len() ==> stats_of(input.labels@, input.width as int, v, #[trigger] s.area@[v], s.bbox@[v], s.centroid@[v]),
{
    proof {
        if input.labels@.len() > 0 {
            assert(input.width > 0) by (nonlinear_arith)
                requires
                    input.labels@.len() == input.width * input.height,
                    input.labels@.len() > 0,
            ;
        }
    }
    claimed_stats(input.labels, input.width, input.height, input.seeds.len() as u32)
}

/// A mark to draw: the pixels it covers, and its colour.
pub type Mark = (spec_fn(int, int) -> bool, [u8; 3]);

/// `img` with `marks` drawn in order.
pub open spec fn apply_marks(img: Seq<u8>, w: int, marks: Seq<Mark>) -> Seq<u8>
    decreases marks.len(),
{
    if marks.len() == 0 {
        img
    } else {
        paint(apply_marks(img, w, marks.drop_last()), w, marks.last().0, marks.last().1)
    }
}

pub const COLLISION_RED: [u8; 3] = [230, 20, 20];
pub const ORPHAN_YELLOW: [u8; 3] = [235, 190, 0];
pub const SEED_RIM: [u8; 3] = [20, 20, 20];

/// The seeds overlay before any mark: white, with the line art in light grey.
pub open spec fn overlay_base(line: Seq<bool>) -> Seq<u8> {
    Seq::new(4 * line.len(), |i: int| if i % 4 < 3 && line[i / 4] { 170u8 } else { 255u8 })
}

/// What the overlay draws, in order: a red line between the seeds of each
/// collision, a yellow frame round each orphan, and each seed as a disc in its
/// colour with a dark rim — seeds last, so no marker hides them.
pub open spec fn overlay_marks(input: DebugInput) -> Seq<Mark> {
    let seeds = input.seeds@;
    Seq::new(input.collisions@.len(), |k: int| (
        stroke_at(line_points(seeds[input.collisions@[k].0 as int].anchor, seeds[input.collisions@[k].1 as int].anchor)),
        COLLISION_RED,
    )) + Seq::new(input.orphans@.len(), |k: int| (outline_at(input.orphans@[k].bbox), ORPHAN_YELLOW))
        + Seq::new(2 * seeds.len(), |k: int| {
        let s = seeds[k / 2];
        if k % 2 == 0 {
            (disc_at(s.anchor.0 as int, s.anchor.1 as int, DOT_RADIUS as int), s.color)
        } else {
            (ring_at(s.anchor.0 as int, s.anchor.1 as int, DOT_RADIUS as int, STROKE as int), SEED_RIM)
        }
    })
}

/// Line art, seed positions and diagnostic markers: what the artist compares
/// with "how many dots did I place".
pub fn seeds_overlay(input: &DebugInput) -> (out: Vec<u8>)
    requires
        input_wf(*input),
        forall|k: int| 0 <= k < input.collisions@.len() ==> (#[trigger] input.collisions@[k]).0 < input.seeds@.len()
            && input.collisions@[k].1 < input.seeds@.len(),
        forall|k: int| 0 <= k < input.seeds@.len() ==> (#[trigger] input.seeds@[k]).anchor.0 < 0x4000_0000
            && input.seeds@[k].anchor.1 < 0x4000_0000,
    ensures
        out@ == apply_marks(overlay_base(input.line@), input.width as int, overlay_marks(*input)),
{
    let n = input.labels.len();
    let ghost marks = overlay_marks(*input);
    let ghost w = input.width as int;
    let mut base: Vec<u8> = vec![255u8; 4 * n];
    let mut i: usize = 0;
    while i < n
        invariant
            n == input.line@.len(),
            4 * n <= u32::MAX,
            i <= n,
            base@.len() == 4 * n,
            forall|j: int| 0 <= j < 4 * n ==> #[trigger] base@[j] == (if j < 4 * i { overlay_base(input.line@)[j] } else { 255u8 }),
        decreases n - i,
    {
        if input.line[i] {
            base.set(4 * i, 170);
            base.set(4 * i + 1, 170);
            base.set(4 * i + 2, 170);
        }
        proof {
            assert forall|j: int| 0 <= j < 4 * n implies #[trigger] base@[j] == (if j < 4 * (i + 1) { overlay_base(input.line@)[j] } else { 255u8 }) by {
                if 4 * i <= j < 4 * i + 4 {
                    assert(j / 4 == i);
                }
            }
        }
        i += 1;
    }
    assert(base@ =~= overlay_base(input.line@));
    let ghost b0 = base@;
    let mut canvas = Overlay { out: base, w: input.width, h: input.height };
    let ghost nc = input.collisions@.len() as int;
    let ghost no = input.orphans@.len() as int;
    let mut k: usize = 0;
    while k < input.collisions.len()
        invariant
            input_wf(*input),
            canvas.wf(),
            canvas.w == input.width,
            canvas.h == input.height,
            marks == overlay_marks(*input),
            w == input.width,
            forall|t: int| 0 <= t < input.collisions@.len() ==> (#[trigger] input.collisions@[t]).0 < input.seeds@.len()
                && input.collisions@[t].1 < input.seeds@.len(),
            forall|t: int| 0 <= t < input.seeds@.len() ==> (#[trigger] input.seeds@[t]).anchor.0 < 0x4000_0000
                && input.seeds@[t].anchor.1 < 0x4000_0000,
            k <= input.collisions@.len(),
            canvas.out@ == apply_marks(b0, w, marks.take(k as int)),
        decreases input.collisions@.len() - k,
    {
        let (first, second) = input.collisions[k];
        let (a, b) = (input.seeds[first as usize].anchor, input.seeds[second as usize].anchor);
        canvas.line(a, b, COLLISION_RED);
        assert(marks.take(k as int + 1).drop_last() =~= marks.take(k as int));
        k += 1;
    }
    let mut k: usize = 0;
    while k < input.orphans.len()
        invariant
            input_wf(*input),
            canvas.wf(),
            canvas.w == input.width,
            canvas.h == input.height,
            marks == overlay_marks(*input),
            w == input.width,
            nc == input.collisions@.len(),
            k <= input.orphans@.len(),
            canvas.out@ == apply_marks(b0, w, marks.take(nc + k)),
        decreases input.orphans@.len() - k,
    {
        canvas.rect_outline(input.orphans[k].bbox, ORPHAN_YELLOW);
        assert(marks.take(nc + k + 1).drop_last() =~= marks.take(nc + k));
        k += 1;
    }
    let mut k: usize = 0;
    while k < input.seeds.len()
        invariant
            input_wf(*input),
            canvas.wf(),
            canvas.w == input.width,
            canvas.h == input.height,
            marks == overlay_marks(*input),
            w == input.width,
            nc == input.collisions@.len(),
            no == input.orphans@.len(),
            k <= input.seeds@.len(),
            canvas.out@ == apply_marks(b0, w, marks.take(nc + no + 2 * k)),
        decreases input.seeds@.len() - k,
    {
        let s = input.seeds[k];
        proof {
            let idx = nc + no + 2 * k;
            assert((2 * k as int) / 2 == k && (2 * k as int) % 2 == 0 && (2 * k as int + 1) / 2 == k && (2 * k as int + 1) % 2 == 1);
            assert(marks[idx] == (disc_at(s.anchor.0 as int, s.anchor.1 as int, DOT_RADIUS as int), s.color));
            assert(marks[idx + 1] == (ring_at(s.anchor.0 as int, s.anchor.1 as int, DOT_RADIUS as int, STROKE as int), SEED_RIM));
        }
        canvas.disc(s.anchor, DOT_RADIUS, s.color);
        proof {
            let idx = nc + no + 2 * k;
            assert(marks.take(idx + 1).drop_last() =~= marks.take(idx));
            assert(marks.take(idx + 1).last() == marks[idx]);
            assert(canvas.out@ == apply_marks(b0, w, marks.take(idx + 1)));
        }
        canvas.ring(s.anchor, DOT_RADIUS, STROKE, SEED_RIM);
        proof {
            let idx = nc + no + 2 * k + 1;
            assert(marks.take(idx + 1).drop_last() =~= marks.take(idx));
            assert(marks.take(idx + 1).last() == marks[idx]);
            assert(canvas.out@ == apply_marks(b0, w, marks.take(idx + 1)));
        }
        k += 1;
    }
    assert(marks.take(nc + no + 2 * input.seeds@.len()) =~= marks);
    canvas.out
}

} // verus!
