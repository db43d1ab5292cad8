//! Checks at output resolution. Passing the master checks does not mean the
//! output passes: downsampling can eat or split regions.
use vstd::prelude::*;
use crate::code;
use crate::report::{capped, Coords, Diagnostic, Severity, Stage};
use crate::segment::{count_eq, RegionMap, region_map_wf, count_components_per_id, component_keys, all_active};
use crate::components::{Components, is_labelling, NONE};
use crate::text::{dec, decimal, push_decimal};

verus! {

/// Threshold for fragment regions, at **output** resolution (about 800 master pixels).
pub const MIN_REGION_AREA: u32 = 200;
/// Bounds of the recommended region count; both are warnings.
pub const REGION_COUNT_MIN: u32 = 8;
pub const REGION_COUNT_MAX: u32 = 2000;

/// Per-region statistics at output resolution, indexed by region id; `area == 0`
/// means the region was eaten by downsampling.
pub struct OutputStats {
    pub area: Vec<u32>,
    pub bbox: Vec<[u32; 4]>,
    pub centroid: Vec<[u32; 2]>,
}

/// Column (or, with `by_y`, row) of pixel `j`.
pub open spec fn coord_of(j: int, w: int, by_y: bool) -> int {
    if by_y { j / w } else { j % w }
}

/// Smallest coordinate of the first `i` pixels with id `v` (`u32::MAX` if none).
pub open spec fn cmin(ids: Seq<u32>, w: int, v: int, i: int, by_y: bool) -> int
    decreases i,
{
    if i <= 0 {
        u32::MAX as int
    } else {
        let m = cmin(ids, w, v, i - 1, by_y);
        let c = coord_of(i - 1, w, by_y);
        if ids[i - 1] == v && c < m { c } else { m }
    }
}

/// Largest coordinate of the first `i` pixels with id `v` (0 if none).
pub open spec fn cmax(ids: Seq<u32>, w: int, v: int, i: int, by_y: bool) -> int
    decreases i,
{
    if i <= 0 {
        0
    } else {
        let m = cmax(ids, w, v, i - 1, by_y);
        let c = coord_of(i - 1, w, by_y);
        if ids[i - 1] == v && c > m { c } else { m }
    }
}

/// Sum of coordinates of the first `i` pixels with id `v`.
pub open spec fn csum(ids: Seq<u32>, w: int, v: int, i: int, by_y: bool) -> int
    decreases i,
{
    if i <= 0 {
        0
    } else {
        csum(ids, w, v, i - 1, by_y) + (if ids[i - 1] == v { coord_of(i - 1, w, by_y) } else { 0 })
    }
}

/// The statistics of region `v`: area, bounding box `[x, y, w, h]`, integer centroid.
pub open spec fn stats_of(ids: Seq<u32>, w: int, v: int, area: u32, bbox: [u32; 4], centroid: [u32; 2]) -> bool {
    let n = ids.len() as int;
    let a = count_eq(ids, v, n);
    &&& area == a
    &&& if a == 0 {
        bbox == [0u32, 0u32, 0u32, 0u32] && centroid == [0u32, 0u32]
    } else {
        &&& bbox[0] == cmin(ids, w, v, n, false)
        &&& bbox[1] == cmin(ids, w, v, n, true)
        &&& bbox[2] == cmax(ids, w, v, n, false) - cmin(ids, w, v, n, false) + 1
        &&& bbox[3] == cmax(ids, w, v, n, true) - cmin(ids, w, v, n, true) + 1
        &&& centroid[0] == csum(ids, w, v, n, false) / (a as int)
        &&& centroid[1] == csum(ids, w, v, n, true) / (a as int)
    }
}

proof fn lemma_fold_bounds(ids: Seq<u32>, w: int, v: int, i: int, by_y: bool)
    requires
        w >= 1,
        0 <= i <= ids.len(),
        i <= u32::MAX,
    ensures
        count_eq(ids, v, i) <= i,
        0 <= csum(ids, w, v, i, by_y) <= count_eq(ids, v, i) * (u32::MAX as int),
        count_eq(ids, v, i) > 0 ==> 0 <= cmin(ids, w, v, i, by_y) <= cmax(ids, w, v, i, by_y) < i,
        count_eq(ids, v, i) > 0 ==> cmin(ids, w, v, i, by_y) * count_eq(ids, v, i) <= csum(ids, w, v, i, by_y)
            <= cmax(ids, w, v, i, by_y) * count_eq(ids, v, i),
        count_eq(ids, v, i) == 0 ==> cmin(ids, w, v, i, by_y) == u32::MAX && cmax(ids, w, v, i, by_y) == 0 && csum(ids, w, v, i, by_y) == 0,
    decreases i,
{
    if i > 0 {
        lemma_fold_bounds(ids, w, v, i - 1, by_y);
        let c = coord_of(i - 1, w, by_y);
        assert(0 <= c <= i - 1) by (nonlinear_arith)
            requires
                w >= 1,
                i >= 1,
                c == (if by_y { (i - 1) / w } else { (i - 1) % w }),
        ;
        let a0 = count_eq(ids, v, i - 1);
        let s0 = csum(ids, w, v, i - 1, by_y);
        let lo0 = cmin(ids, w, v, i - 1, by_y);
        let hi0 = cmax(ids, w, v, i - 1, by_y);
        if ids[i - 1] == v {
            let a = a0 + 1;
            let s = s0 + c;
            let lo = cmin(ids, w, v, i, by_y);
            let hi = cmax(ids, w, v, i, by_y);
            assert(s <= a * (u32::MAX as int)) by (nonlinear_arith)
                requires
                    s0 <= a0 * (u32::MAX as int),
                    c <= u32::MAX,
                    a == a0 + 1,
                    s == s0 + c,
            ;
            if a0 == 0 {
                assert(lo * a <= s <= hi * a) by (nonlinear_arith)
                    requires
                        lo == c,
                        hi == c,
                        s == c,
                        a == 1,
                ;
            } else {
                assert(lo * a <= s <= hi * a) by (nonlinear_arith)
                    requires
                        lo0 * a0 <= s0 <= hi0 * a0,
                        0 <= lo <= lo0,
                        lo <= c,
                        hi >= hi0,
                        hi >= c,
                        a == a0 + 1,
                        s == s0 + c,
                        a0 >= 1,
                ;
            }
        }
    }
}

/// The mean of values that lie between `lo` and `hi` lies there too.
proof fn lemma_mean_between(lo: int, hi: int, s: int, a: int)
    requires
        a >= 1,
        lo * a <= s <= hi * a,
    ensures
        lo <= s / a <= hi,
{
    assert(lo <= s / a <= hi) by (nonlinear_arith)
        requires
            lo * a <= s <= hi * a,
            a >= 1,
    ;
}

/// Area, bounding box and centroid of every region of the output id map.
pub fn stats(ids: &[u32], width: u32, height: u32, count: u32) -> (s: OutputStats)
    requires
        ids@.len() <= u32::MAX,
        ids@.len() > 0 ==> width > 0,
        forall|i: int| 0 <= i < ids@.len() ==> (#[trigger] ids@[i]) < count,
    ensures
        s.area@.len() == count,
        s.bbox@.len() == count,
        s.centroid@.len() == count,
        forall|v: int| 0 <= v < count ==> stats_of(ids@, width as int, v, #[trigger] s.area@[v], s.bbox@[v], s.centroid@[v]),
{
    claimed_stats(ids, width, height, count)
}

/// Area, bounding box and centroid of regions `0..count`; pixels with any other
/// id (such as unclaimed ones) count for no region.
pub fn claimed_stats(ids: &[u32], width: u32, height: u32, count: u32) -> (s: OutputStats)
    requires
        ids@.len() <= u32::MAX,
        ids@.len() > 0 ==> width > 0,
    ensures
        s.area@.len() == count,
        s.bbox@.len() == count,
        s.centroid@.len() == count,
        forall|v: int| 0 <= v < count ==> stats_of(ids@, width as int, v, #[trigger] s.area@[v], s.bbox@[v], s.centroid@[v]),
{
    let n = count as usize;
    let mut area: Vec<u32> = vec![0u32; n];
    let mut sum_x: Vec<u64> = vec![0u64; n];
    let mut sum_y: Vec<u64> = vec![0u64; n];
    let mut min_x: Vec<u32> = vec![u32::MAX; n];
    let mut min_y: Vec<u32> = vec![u32::MAX; n];
    let mut max_x: Vec<u32> = vec![0u32; n];
    let mut max_y: Vec<u32> = vec![0u32; n];
    let len = ids.len();
    let mut i: usize = 0;
    while i < len
        invariant
            len == ids@.len(),
            len <= u32::MAX,
            len > 0 ==> width > 0,
            n == count,
            i <= len,
            area@.len() == n,
            sum_x@.len() == n,
            sum_y@.len() == n,
            min_x@.len() == n,
            min_y@.len() == n,
            max_x@.len() == n,
            max_y@.len() == n,
            forall|v: int| 0 <= v < n ==> {
                &&& #[trigger] area@[v] == count_eq(ids@, v, i as int)
                &&& sum_x@[v] == csum(ids@, width as int, v, i as int, false)
                &&& sum_y@[v] == csum(ids@, width as int, v, i as int, true)
                &&& min_x@[v] == cmin(ids@, width as int, v, i as int, false)
                &&& min_y@[v] == cmin(ids@, width as int, v, i as int, true)
                &&& max_x@[v] == cmax(ids@, width as int, v, i as int, false)
                &&& max_y@[v] == cmax(ids@, width as int, v, i as int, true)
            },
        decreases len - i,
    {
        let id = ids[i] as usize;
        let i32 = i as u32;
        let (x, y) = (i32 % width, i32 / width);
        proof {
            lemma_fold_bounds(ids@, width as int, id as int, i as int, false);
            lemma_fold_bounds(ids@, width as int, id as int, i as int, true);
            assert(count_eq(ids@, id as int, i as int) * (u32::MAX as int) <= u32::MAX * u32::MAX) by (nonlinear_arith)
                requires
                    count_eq(ids@, id as int, i as int) <= u32::MAX,
            ;
        }
        if id < n {
        let ghost pre = (area@, sum_x@, sum_y@, min_x@, min_y@, max_x@, max_y@);
        area.set(id, area[id] + 1);
        sum_x.set(id, sum_x[id] + x as u64);
        sum_y.set(id, sum_y[id] + y as u64);
        if x < min_x[id] {
            min_x.set(id, x);
        }
        if y < min_y[id] {
            min_y.set(id, y);
        }
        if x > max_x[id] {
            max_x.set(id, x);
        }
        if y > max_y[id] {
            max_y.set(id, y);
        }
        proof {
            let ii = i as int + 1;
            assert(coord_of(i as int, width as int, false) == x);
            assert(coord_of(i as int, width as int, true) == y);
            assert forall|v: int| 0 <= v < n implies {
                &&& #[trigger] area@[v] == count_eq(ids@, v, ii)
                &&& sum_x@[v] == csum(ids@, width as int, v, ii, false)
                &&& sum_y@[v] == csum(ids@, width as int, v, ii, true)
                &&& min_x@[v] == cmin(ids@, width as int, v, ii, false)
                &&& min_y@[v] == cmin(ids@, width as int, v, ii, true)
                &&& max_x@[v] == cmax(ids@, width as int, v, ii, false)
                &&& max_y@[v] == cmax(ids@, width as int, v, ii, true)
            } by {
                assert(ids@[ii - 1] == id);
                if v != id as int {
                    assert(area@[v] == pre.0[v]);
                    assert(sum_x@[v] == pre.1[v]);
                    assert(sum_y@[v] == pre.2[v]);
                    assert(min_x@[v] == pre.3[v]);
                    assert(min_y@[v] == pre.4[v]);
                    assert(max_x@[v] == pre.5[v]);
                    assert(max_y@[v] == pre.6[v]);
                }
            }
        }
        } else {
            proof {
                let ii = i as int + 1;
                assert forall|v: int| 0 <= v < n implies #[trigger] count_eq(ids@, v, ii) == count_eq(ids@, v, i as int)
                    && csum(ids@, width as int, v, ii, false) == csum(ids@, width as int, v, i as int, false)
                    && csum(ids@, width as int, v, ii, true) == csum(ids@, width as int, v, i as int, true)
                    && cmin(ids@, width as int, v, ii, false) == cmin(ids@, width as int, v, i as int, false)
                    && cmin(ids@, width as int, v, ii, true) == cmin(ids@, width as int, v, i as int, true)
                    && cmax(ids@, width as int, v, ii, false) == cmax(ids@, width as int, v, i as int, false)
                    && cmax(ids@, width as int, v, ii, true) == cmax(ids@, width as int, v, i as int, true) by {
                    assert(ids@[ii - 1] != v);
                }
            }
        }
        i += 1;
    }
    assert(i == len);
    let mut bbox: Vec<[u32; 4]> = Vec::with_capacity(n);
    let mut centroid: Vec<[u32; 2]> = Vec::with_capacity(n);
    let mut v: usize = 0;
    while v < n
        invariant
            len == ids@.len(),
            len <= u32::MAX,
            len > 0 ==> width > 0,
            n == count,
            v <= n,
            area@.len() == n,
            sum_x@.len() == n,
            sum_y@.len() == n,
            min_x@.len() == n,
            min_y@.len() == n,
            max_x@.len() == n,
            max_y@.len() == n,
            bbox@.len() == v,
            centroid@.len() == v,
            forall|u: int| 0 <= u < n ==> {
                &&& #[trigger] area@[u] == count_eq(ids@, u, len as int)
                &&& sum_x@[u] == csum(ids@, width as int, u, len as int, false)
                &&& sum_y@[u] == csum(ids@, width as int, u, len as int, true)
                &&& min_x@[u] == cmin(ids@, width as int, u, len as int, false)
                &&& min_y@[u] == cmin(ids@, width as int, u, len as int, true)
                &&& max_x@[u] == cmax(ids@, width as int, u, len as int, false)
                &&& max_y@[u] == cmax(ids@, width as int, u, len as int, true)
            },
            forall|u: int| 0 <= u < v ==> stats_of(ids@, width as int, u, #[trigger] area@[u], bbox@[u], centroid@[u]),
        decreases n - v,
    {
        proof {
            if len > 0 {
                lemma_fold_bounds(ids@, width as int, v as int, len as int, false);
                lemma_fold_bounds(ids@, width as int, v as int, len as int, true);
                let a: int = count_eq(ids@, v as int, len as int) as int;
                if a > 0 {
                    lemma_mean_between(cmin(ids@, width as int, v as int, len as int, false),
                        cmax(ids@, width as int, v as int, len as int, false),
                        csum(ids@, width as int, v as int, len as int, false), a);
                    lemma_mean_between(cmin(ids@, width as int, v as int, len as int, true),
                        cmax(ids@, width as int, v as int, len as int, true),
                        csum(ids@, width as int, v as int, len as int, true), a);
                }
            } else {
                assert(count_eq(ids@, v as int, 0) == 0);
            }
        }
        if area[v] == 0 {
            bbox.push([0, 0, 0, 0]);
            centroid.push([0, 0]);
        } else {
            let a = area[v] as u64;
            bbox.push([min_x[v], min_y[v], max_x[v] - min_x[v] + 1, max_y[v] - min_y[v] + 1]);
            centroid.push([(sum_x[v] / a) as u32, (sum_y[v] / a) as u32]);
        }
        v += 1;
    }
    OutputStats { area, bbox, centroid }
}


/// What one diagnostic states: severity, code, message and the points it lists.
pub type Finding = (Severity, &'static str, Seq<char>, Seq<(u32, u32)>);

/// `d` is the output-stage diagnostic that `f` describes.
pub open spec fn reports(d: Diagnostic, f: Finding) -> bool {
    &&& d.severity == f.0
    &&& d.code == f.1
    &&& d.stage == Stage::Output
    &&& d.message@ == f.2
    &&& d.coords@ == capped(f.3)
    &&& d.coord_total == f.3.len()
    &&& d.region is None
}

/// Regions among `0..k` with no output pixel, in id order.
pub open spec fn vanished_ids(area: Seq<u32>, k: int) -> Seq<u32>
    decreases k,
{
    if k <= 0 {
        Seq::empty()
    } else if area[k - 1] == 0 {
        vanished_ids(area, k - 1).push((k - 1) as u32)
    } else {
        vanished_ids(area, k - 1)
    }
}

/// Master coordinates of the first pixel of each vanished region among `0..k`.
pub open spec fn drift_points(m: RegionMap, area: Seq<u32>, k: int) -> Seq<(u32, u32)>
    decreases k,
{
    if k <= 0 {
        Seq::empty()
    } else if area[k - 1] == 0 {
        let f = m.first_pixel@[k - 1];
        drift_points(m, area, k - 1).push(((f % m.width) as u32, (f / m.width) as u32))
    } else {
        drift_points(m, area, k - 1)
    }
}

/// Doubled centroids of the regions among `0..k` that survive with fewer than
/// `MIN_REGION_AREA` output pixels.
pub open spec fn tiny_points(area: Seq<u32>, centroid: Seq<[u32; 2]>, k: int) -> Seq<(u32, u32)>
    decreases k,
{
    if k <= 0 {
        Seq::empty()
    } else if 0 < area[k - 1] < MIN_REGION_AREA {
        tiny_points(area, centroid, k - 1).push(((centroid[k - 1][0] * 2) as u32, (centroid[k - 1][1] * 2) as u32))
    } else {
        tiny_points(area, centroid, k - 1)
    }
}

/// Number of 4-connected pieces that id `v` forms, under labelling `c`.
pub open spec fn pieces_of(c: Components, ids: Seq<u32>, v: int) -> nat {
    count_eq(component_keys(c, ids), v, c.first@.len() as int)
}

/// Doubled centroids of the regions among `0..k` that fall apart into several pieces.
pub open spec fn split_points(c: Components, ids: Seq<u32>, centroid: Seq<[u32; 2]>, k: int) -> Seq<(u32, u32)>
    decreases k,
{
    if k <= 0 {
        Seq::empty()
    } else if pieces_of(c, ids, k - 1) > 1 {
        split_points(c, ids, centroid, k - 1).push(((centroid[k - 1][0] * 2) as u32, (centroid[k - 1][1] * 2) as u32))
    } else {
        split_points(c, ids, centroid, k - 1)
    }
}

pub open spec fn drift_message(lost: nat, count: nat) -> Seq<char> {
    dec(lost) + " 個區域在降採樣後消失（母帶 "@ + dec(count) + " 區 → 輸出 "@ + dec((count - lost) as nat)
        + " 區）。那些區域細到撐不過縮圖，請加寬或併入鄰區"@
}

pub open spec fn overflow_message(count: nat, max_count: nat) -> Seq<char> {
    "區域數 "@ + dec(count) + " 超過 R16 上限 "@ + dec(max_count) + "，regions.bin 裝不下"@
}

pub open spec fn tiny_message(n: nat) -> Seq<char> {
    dec(n) + " 個碎片區域（輸出面積 < 200px，母帶約 800px）。確認那些小塊是刻意的（例如亮點），不是雜點"@
}

pub open spec fn range_message(count: nat) -> Seq<char> {
    "區域數 "@ + dec(count) + " 落在建議範圍 8–2000 之外"@
}

pub open spec fn split_message(n: nat) -> Seq<char> {
    dec(n) + " 個區域在輸出解析度下斷成多塊。使用者點一塊時另一塊也會被填——被線稿切斷的髮束是合理交付，但無意的細頸不是"@
}

/// Everything the output stage reports, in order: vanished regions, too many
/// regions, fragments, a count outside the recommended range, split regions.
pub open spec fn output_findings(m: RegionMap, ids: Seq<u32>, c: Components, area: Seq<u32>, centroid: Seq<[u32; 2]>, max_count: u32) -> Seq<Finding> {
    let k = m.count as int;
    let lost = vanished_ids(area, k);
    let tiny = tiny_points(area, centroid, k);
    let split = split_points(c, ids, centroid, k);
    let f1: Seq<Finding> = if lost.len() > 0 {
        seq![(Severity::Error, code::REGION_COUNT_DRIFT, drift_message(lost.len(), m.count as nat), drift_points(m, area, k))]
    } else {
        Seq::empty()
    };
    let f2: Seq<Finding> = if m.count > max_count {
        seq![(Severity::Error, code::REGION_COUNT_OVERFLOW, overflow_message(m.count as nat, max_count as nat), Seq::empty())]
    } else {
        Seq::empty()
    };
    let f3: Seq<Finding> = if tiny.len() > 0 {
        seq![(Severity::Warning, code::TINY_REGION, tiny_message(tiny.len()), tiny)]
    } else {
        Seq::empty()
    };
    let f4: Seq<Finding> = if m.count < REGION_COUNT_MIN || m.count > REGION_COUNT_MAX {
        seq![(Severity::Warning, code::REGION_COUNT_RANGE, range_message(m.count as nat), Seq::empty())]
    } else {
        Seq::empty()
    };
    let f5: Seq<Finding> = if split.len() > 0 {
        seq![(Severity::Warning, code::REGION_SPLIT, split_message(split.len()), split)]
    } else {
        Seq::empty()
    };
    f1 + f2 + f3 + f4 + f5
}

/// Some region among `0..k` has no output pixel.
pub open spec fn some_region_vanished(area: Seq<u32>, k: int) -> bool {
    exists|v: int| 0 <= v < k && #[trigger] area[v] == 0
}

proof fn lemma_vanished_nonempty(area: Seq<u32>, k: int)
    requires
        0 <= k,
    ensures
        vanished_ids(area, k).len() > 0 <==> some_region_vanished(area, k),
    decreases k,
{
    if k > 0 {
        lemma_vanished_nonempty(area, k - 1);
        if some_region_vanished(area, k) && area[k - 1] != 0 {
            let v = choose|v: int| 0 <= v < k && #[trigger] area[v] == 0;
            assert(v < k - 1 && area[v] == 0);
        }
        if some_region_vanished(area, k - 1) {
            let v = choose|v: int| 0 <= v < k - 1 && #[trigger] area[v] == 0;
            assert(area[v] == 0);
        }
    }
}

/// A master region that vanishes at output resolution is an error, reported
/// first, under `region-count-drift`, with one point per vanished region:
/// whatever else is found, the bake is rejected.
pub proof fn law_a_vanished_region_is_an_error(m: RegionMap, ids: Seq<u32>, c: Components, area: Seq<u32>, centroid: Seq<[u32; 2]>, max_count: u32)
    ensures
        ({
            let fs = output_findings(m, ids, c, area, centroid, max_count);
            some_region_vanished(area, m.count as int) ==> {
                &&& fs.len() > 0
                &&& fs[0].0 == Severity::Error
                &&& fs[0].1 == code::REGION_COUNT_DRIFT
                &&& fs[0].3.len() == vanished_ids(area, m.count as int).len()
            }
        }),
{
    lemma_vanished_nonempty(area, m.count as int);
    lemma_vanished_len(m, area, m.count as int);
}

/// Appends `d`, which reports `f`, keeping `out` in step with the findings `fs`.
fn emit(out: &mut Vec<Diagnostic>, d: Diagnostic, Ghost(fs): Ghost<Seq<Finding>>, Ghost(f): Ghost<Finding>)
    requires
        old(out)@.len() == fs.len(),
        forall|i: int| 0 <= i < fs.len() ==> reports(#[trigger] old(out)@[i], fs[i]),
        reports(d, f),
    ensures
        final(out)@.len() == fs.push(f).len(),
        forall|i: int| 0 <= i < fs.push(f).len() ==> reports(#[trigger] final(out)@[i], fs.push(f)[i]),
{
    out.push(d);
    assert forall|i: int| 0 <= i < fs.push(f).len() implies reports(#[trigger] out@[i], fs.push(f)[i]) by {
        if i < fs.len() {
            assert(out@[i] == old(out)@[i]);
        }
    }
}

proof fn lemma_vanished_len(m: RegionMap, area: Seq<u32>, k: int)
    requires
        0 <= k,
    ensures
        vanished_ids(area, k).len() == drift_points(m, area, k).len(),
        vanished_ids(area, k).len() <= k,
    decreases k,
{
    if k > 0 {
        lemma_vanished_len(m, area, k - 1);
    }
}

/// The output-stage checks: regions lost or split by downsampling, fragments,
/// and the region count. `max_region_count` is the largest count the region
/// file format can hold.
pub fn check(master: &RegionMap, ids: &[u32], width: u32, height: u32, stats: &OutputStats, max_region_count: u32) -> (out: Vec<Diagnostic>)
    requires
        region_map_wf(*master),
        master.width > 0,
        width * height < NONE,
        ids@.len() == width * height,
        forall|i: int| 0 <= i < ids@.len() ==> (#[trigger] ids@[i]) < master.count,
        stats.area@.len() == master.count,
        stats.centroid@.len() == master.count,
        forall|v: int| 0 <= v < master.count ==> (#[trigger] stats.centroid@[v])[0] * 2 <= u32::MAX && stats.centroid@[v][1] * 2 <= u32::MAX,
    ensures
        exists|c: Components| #[trigger] is_labelling(c, ids@, all_active(width * height), width as int, height as int) && {
            let fs = output_findings(*master, ids@, c, stats.area@, stats.centroid@, max_region_count);
            &&& out@.len() == fs.len()
            &&& forall|i: int| 0 <= i < fs.len() ==> reports(#[trigger] out@[i], fs[i])
        },
        some_region_vanished(stats.area@, master.count as int) ==> out@.len() > 0 && out@[0].severity == Severity::Error
            && out@[0].code == code::REGION_COUNT_DRIFT,
{
    let mut out: Vec<Diagnostic> = Vec::new();
    let ghost mut fs: Seq<Finding> = Seq::empty();
    let count = master.count;
    let ghost k = count as int;

    let mut lost: usize = 0;
    let mut coords = Coords::master();
    let mut id: u32 = 0;
    while id < count
        invariant
            region_map_wf(*master),
            master.width > 0,
            count == master.count,
            stats.area@.len() == count,
            id <= count,
            coords.wf(),
            coords.factor() == 1,
            coords.points() == drift_points(*master, stats.area@, id as int),
            lost == vanished_ids(stats.area@, id as int).len(),
        decreases count - id,
    {
        proof {
            lemma_vanished_len(*master, stats.area@, id as int);
            coords.lemma_wf();
        }
        if stats.area[id as usize] == 0 {
            let (x, y) = master.coord(master.first_pixel[id as usize]);
            coords.push(x, y);
            lost += 1;
        }
        id += 1;
    }
    proof {
        lemma_vanished_len(*master, stats.area@, k);
    }
    if lost > 0 {
        let lost32 = lost as u32;
        let mut msg = decimal(lost32 as u64);
        msg.append(" 個區域在降採樣後消失（母帶 ");
        push_decimal(&mut msg, count as u64);
        msg.append(" 區 → 輸出 ");
        push_decimal(&mut msg, (count - lost32) as u64);
        msg.append(" 區）。那些區域細到撐不過縮圖，請加寬或併入鄰區");
        let ghost f: Finding = (Severity::Error, code::REGION_COUNT_DRIFT, drift_message(lost as nat, count as nat),
            drift_points(*master, stats.area@, k));
        emit(&mut out, Diagnostic::error(code::REGION_COUNT_DRIFT, Stage::Output, msg).with_coords(coords), Ghost(fs), Ghost(f));
        proof {
            fs = fs.push(f);
        }
    }

    if count > max_region_count {
        let mut msg = String::from_str("區域數 ");
        push_decimal(&mut msg, count as u64);
        msg.append(" 超過 R16 上限 ");
        push_decimal(&mut msg, max_region_count as u64);
        msg.append("，regions.bin 裝不下");
        let ghost f: Finding = (Severity::Error, code::REGION_COUNT_OVERFLOW, overflow_message(count as nat, max_region_count as nat), Seq::empty());
        emit(&mut out, Diagnostic::error(code::REGION_COUNT_OVERFLOW, Stage::Output, msg), Ghost(fs), Ghost(f));
        proof {
            fs = fs.push(f);
        }
    }

    let mut tiny = Coords::output();
    let mut id: u32 = 0;
    while id < count
        invariant
            count == master.count,
            stats.area@.len() == count,
            stats.centroid@.len() == count,
            forall|v: int| 0 <= v < count ==> (#[trigger] stats.centroid@[v])[0] * 2 <= u32::MAX && stats.centroid@[v][1] * 2 <= u32::MAX,
            id <= count,
            out@.len() == fs.len(),
            forall|i: int| 0 <= i < fs.len() ==> reports(#[trigger] out@[i], fs[i]),
            tiny.wf(),
            tiny.factor() == 2,
            tiny.points() == tiny_points(stats.area@, stats.centroid@, id as int),
            tiny.pushed() <= id,
        decreases count - id,
    {
        proof {
            tiny.lemma_wf();
        }
        let area = stats.area[id as usize];
        if area > 0 && area < MIN_REGION_AREA {
            let c = stats.centroid[id as usize];
            tiny.push(c[0], c[1]);
        }
        id += 1;
    }
    proof {
        tiny.lemma_wf();
    }
    if !tiny.is_empty() {
        let mut msg = decimal(tiny.total() as u64);
        msg.append(" 個碎片區域（輸出面積 < 200px，母帶約 800px）。確認那些小塊是刻意的（例如亮點），不是雜點");
        let n = tiny.total();
        let ghost f: Finding = (Severity::Warning, code::TINY_REGION, tiny_message(n as nat), tiny_points(stats.area@, stats.centroid@, k));
        emit(&mut out, Diagnostic::warning(code::TINY_REGION, Stage::Output, msg).with_coords(tiny), Ghost(fs), Ghost(f));
        proof {
            fs = fs.push(f);
        }
    }

    if count < REGION_COUNT_MIN || count > REGION_COUNT_MAX {
        let mut msg = String::from_str("區域數 ");
        push_decimal(&mut msg, count as u64);
        msg.append(" 落在建議範圍 8–2000 之外");
        let ghost f: Finding = (Severity::Warning, code::REGION_COUNT_RANGE, range_message(count as nat), Seq::empty());
        emit(&mut out, Diagnostic::warning(code::REGION_COUNT_RANGE, Stage::Output, msg), Ghost(fs), Ghost(f));
        proof {
            fs = fs.push(f);
        }
    }

    // A region connected at master resolution can fall apart when a one-pixel neck
    // is downsampled away; both pieces keep the id, so filling one fills the other.
    let pieces = count_components_per_id(ids, width, height, count);
    let ghost c = choose|c: Components| #[trigger] is_labelling(c, ids@.subrange(0, width * height), all_active(width * height), width as int, height as int)
        && forall|v: int| 0 <= v < count ==> (#[trigger] pieces@[v]) == count_eq(component_keys(c, ids@), v, c.first@.len() as int);
    assert(ids@.subrange(0, width * height) =~= ids@);
    let mut split = Coords::output();
    let mut id: u32 = 0;
    while id < count
        invariant
            count == master.count,
            pieces@.len() == count,
            stats.centroid@.len() == count,
            forall|v: int| 0 <= v < count ==> (#[trigger] stats.centroid@[v])[0] * 2 <= u32::MAX && stats.centroid@[v][1] * 2 <= u32::MAX,
            forall|v: int| 0 <= v < count ==> (#[trigger] pieces@[v]) == pieces_of(c, ids@, v),
            id <= count,
            out@.len() == fs.len(),
            forall|i: int| 0 <= i < fs.len() ==> reports(#[trigger] out@[i], fs[i]),
            split.wf(),
            split.factor() == 2,
            split.points() == split_points(c, ids@, stats.centroid@, id as int),
            split.pushed() <= id,
        decreases count - id,
    {
        proof {
            split.lemma_wf();
        }
        if pieces[id as usize] > 1 {
            let c = stats.centroid[id as usize];
            split.push(c[0], c[1]);
        }
        id += 1;
    }
    proof {
        split.lemma_wf();
    }
    if !split.is_empty() {
        let mut msg = decimal(split.total() as u64);
        msg.append(" 個區域在輸出解析度下斷成多塊。使用者點一塊時另一塊也會被填——被線稿切斷的髮束是合理交付，但無意的細頸不是");
        let n = split.total();
        let ghost f: Finding = (Severity::Warning, code::REGION_SPLIT, split_message(n as nat), split_points(c, ids@, stats.centroid@, k));
        emit(&mut out, Diagnostic::warning(code::REGION_SPLIT, Stage::Output, msg).with_coords(split), Ghost(fs), Ghost(f));
        proof {
            fs = fs.push(f);
        }
    }
    assert(fs =~= output_findings(*master, ids@, c, stats.area@, stats.centroid@, max_region_count));
    assert(is_labelling(c, ids@, all_active(width * height), width as int, height as int));
    proof {
        law_a_vanished_region_is_an_error(*master, ids@, c, stats.area@, stats.centroid@, max_region_count);
        if some_region_vanished(stats.area@, master.count as int) {
            assert(reports(out@[0], fs[0]));
        }
    }
    out
}

} // verus!
