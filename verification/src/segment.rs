//! Unique-colour histogram, 4-connected region labelling and the region map.
use vstd::prelude::*;
use std::collections::HashMap;
use crate::components::{Components, label_components, is_labelling, NONE};

verus! {

/// Quick-reject threshold: hitting it means the image is broken (for example
/// colour-managed on export).
pub const MAX_UNIQUE_COLORS: usize = 1024;
/// The real threshold on a colour's area, in master pixels.
pub const MIN_COLOR_AREA: u32 = 100;
/// A free area at least this large (master pixels) must hold a seed; smaller
/// fragments are merged into a neighbour.
pub const MIN_ORPHAN_AREA: u32 = 500;
/// `#FF00FF` is reserved for the gap check.
pub const RESERVED_COLOR: [u8; 3] = [255, 0, 255];
/// Label of a pixel that no region claims.
pub const UNASSIGNED: u32 = 0xFFFF_FFFF;

/// A free area that no seed claimed.
#[derive(Debug, Clone, Copy, PartialEq, Eq)]
pub struct Orphan {
    pub area: u32,
    /// The area's first pixel in raster order.
    pub anchor: (u32, u32),
    /// `[x, y, w, h]`.
    pub bbox: [u32; 4],
}

/// The RGB triple of pixel `i` of an RGBA8 buffer.
pub open spec fn px_rgb(rgba: Seq<u8>, i: int) -> [u8; 3] {
    [rgba[4 * i], rgba[4 * i + 1], rgba[4 * i + 2]]
}

/// Whether two colours are equal.
pub fn same_rgb(a: [u8; 3], b: [u8; 3]) -> (r: bool)
    ensures
        r == (a == b),
{
    if a[0] == b[0] && a[1] == b[1] && a[2] == b[2] {
        assert(a =~= b);
        true
    } else {
        false
    }
}

/// An injective packing of an RGB triple into an integer.
pub open spec fn rgb_key(c: [u8; 3]) -> int {
    c[0] * 65536 + c[1] * 256 + c[2]
}

/// The distinct colours among the first `i` pixels, in order of first appearance.
pub open spec fn seen_colors(rgba: Seq<u8>, i: int) -> Seq<[u8; 3]>
    decreases i,
{
    if i <= 0 {
        Seq::empty()
    } else {
        let s = seen_colors(rgba, i - 1);
        let c = px_rgb(rgba, i - 1);
        if s.contains(c) { s } else { s.push(c) }
    }
}

/// How many of the first `i` pixels have colour `c`.
pub open spec fn color_count(rgba: Seq<u8>, c: [u8; 3], i: int) -> nat
    decreases i,
{
    if i <= 0 {
        0
    } else {
        color_count(rgba, c, i - 1) + (if px_rgb(rgba, i - 1) == c { 1nat } else { 0nat })
    }
}

/// Area and first occurrence (raster order) of one colour.
#[derive(Debug, Clone, Copy)]
pub struct ColorStat {
    pub area: u32,
    /// Where the colour first appears, in raster order.
    pub first: (u32, u32),
}

/// The colour histogram of an image: the statistics of each colour, keyed by
/// its packed `0xRRGGBB` value, and the colours in order of first appearance.
#[derive(Debug, Clone)]
pub struct ColorHistogram {
    stats: HashMap<u32, ColorStat>,
    colors: Vec<[u8; 3]>,
}

/// The packed `0xRRGGBB` key of a colour.
pub open spec fn color_key(c: [u8; 3]) -> u32 {
    rgb_key(c) as u32
}

proof fn lemma_color_key(a: [u8; 3], b: [u8; 3])
    ensures
        color_key(a) as int == rgb_key(a),
        color_key(a) == color_key(b) <==> a == b,
{
    assert(0 <= rgb_key(a) < 0x100_0000);
    assert(0 <= rgb_key(b) < 0x100_0000);
    if rgb_key(a) == rgb_key(b) {
        assert(a[0] == b[0] && a[1] == b[1] && a[2] == b[2]);
        assert(a =~= b);
    }
}

/// `stat` describes colour `c` of an image `width` pixels wide: its area, and
/// its first occurrence.
pub open spec fn describes(rgba: Seq<u8>, width: int, c: [u8; 3], stat: ColorStat) -> bool {
    let n = (rgba.len() / 4) as int;
    let j = stat.first.1 * width + stat.first.0;
    &&& stat.area == color_count(rgba, c, n)
    &&& stat.first.0 < width
    &&& 0 <= j < n
    &&& px_rgb(rgba, j) == c
    &&& forall|i: int| 0 <= i < j ==> px_rgb(rgba, i) != c
}

proof fn lemma_seen_prefix(rgba: Seq<u8>, i: int, j: int)
    requires
        0 <= i <= j,
    ensures
        seen_colors(rgba, i).len() <= seen_colors(rgba, j).len(),
    decreases j - i,
{
    if i < j {
        lemma_seen_prefix(rgba, i, j - 1);
    }
}

pub proof fn lemma_seen_contains(rgba: Seq<u8>, i: int, c: [u8; 3])
    requires
        0 <= i,
    ensures
        seen_colors(rgba, i).contains(c) <==> exists|j: int| 0 <= j < i && px_rgb(rgba, j) == c,
        seen_colors(rgba, i).no_duplicates(),
    decreases i,
{
    if i > 0 {
        lemma_seen_contains(rgba, i - 1, c);
        let s = seen_colors(rgba, i - 1);
        let last = px_rgb(rgba, i - 1);
        if !s.contains(last) {
            assert forall|a: int, b: int| 0 <= a < b < s.push(last).len() implies s.push(last)[a] != s.push(last)[b] by {
                if b == s.len() {
                    assert(s[a] == s.push(last)[a]);
                }
            }
        }
        if exists|j: int| 0 <= j < i && px_rgb(rgba, j) == c {
            let j = choose|j: int| 0 <= j < i && px_rgb(rgba, j) == c;
            if j < i - 1 {
                assert(s.contains(c));
                let k = choose|k: int| 0 <= k < s.len() && s[k] == c;
                if !s.contains(last) {
                    assert(s.push(last)[k] == c);
                }
            } else {
                if !s.contains(last) {
                    assert(s.push(last)[s.len() as int] == c);
                }
            }
        }
        if seen_colors(rgba, i).contains(c) && !s.contains(c) {
            assert(c == last);
            assert(px_rgb(rgba, i - 1) == c);
        }
    }
}

/// Builds the colour histogram of `rgba` (an image `width` pixels wide).
///
/// `Err(n)` means there are more than `MAX_UNIQUE_COLORS` distinct colours: the
/// scan gives up at the `n`-th colour, areas would be meaningless and the table
/// must not grow to millions of entries.
pub fn color_histogram(rgba: &[u8], width: u32) -> (r: Result<ColorHistogram, usize>)
    requires
        rgba@.len() / 4 <= u32::MAX,
        rgba@.len() >= 4 ==> width > 0,
    ensures
        match r {
            Ok(hist) => {
                let seen = seen_colors(rgba@, (rgba@.len() / 4) as int);
                &&& hist.wf()
                &&& seen.len() <= MAX_UNIQUE_COLORS
                &&& hist.entries().len() == seen.len()
                &&& forall|k: int| 0 <= k < seen.len() ==> (#[trigger] hist.entries()[k]).0 == seen[k]
                    && describes(rgba@, width as int, seen[k], hist.entries()[k].1)
            },
            Err(m) => seen_colors(rgba@, (rgba@.len() / 4) as int).len() > MAX_UNIQUE_COLORS && m == MAX_UNIQUE_COLORS + 1,
        },
{
    broadcast use vstd::std_specs::hash::group_hash_axioms;
    let n = rgba.len() / 4;
    let mut stats: HashMap<u32, ColorStat> = HashMap::new();
    let mut colors: Vec<[u8; 3]> = Vec::new();
    let mut i: usize = 0;
    while i < n
        invariant
            n == rgba@.len() / 4,
            n <= u32::MAX,
            n > 0 ==> width > 0,
            i <= n,
            colors@ == seen_colors(rgba@, i as int),
            colors@.len() <= MAX_UNIQUE_COLORS,
            forall|c: [u8; 3]| #[trigger] stats@.contains_key(color_key(c)) <==> colors@.contains(c),
            forall|k: int| 0 <= k < colors@.len() ==> {
                let c = #[trigger] colors@[k];
                let st = stats@[color_key(c)];
                &&& st.area == color_count(rgba@, c, i as int)
                &&& st.first.0 < width
                &&& 0 <= st.first.1 * width + st.first.0 < i
                &&& px_rgb(rgba@, st.first.1 * width + st.first.0) == c
                &&& forall|j: int| 0 <= j < st.first.1 * width + st.first.0 ==> px_rgb(rgba@, j) != c
            },
        decreases n - i,
    {
        proof {
            lemma_seen_contains(rgba@, i as int, px_rgb(rgba@, i as int));
        }
        assert(4 * i + 3 < rgba.len());
        let c = [rgba[4 * i], rgba[4 * i + 1], rgba[4 * i + 2]];
        assert(c == px_rgb(rgba@, i as int));
        let key: u32 = c[0] as u32 * 65536 + c[1] as u32 * 256 + c[2] as u32;
        assert(key == color_key(c));
        let ghost seen_before = seen_colors(rgba@, i as int);
        let ghost stats0 = stats@;
        match stats.get(&key) {
            Some(found) => {
                let mut e = *found;
                proof {
                    assert(stats0.contains_key(color_key(c)));
                    assert(seen_before.contains(c));
                    assert(seen_colors(rgba@, i + 1) == seen_before);
                    assert(e.area <= i) by {
                        lemma_color_count_bound(rgba@, c, i as int);
                    }
                }
                e.area = e.area + 1;
                stats.insert(key, e);
                proof {
                    assert forall|d: [u8; 3]| #[trigger] stats@.contains_key(color_key(d)) <==> colors@.contains(d) by {
                        assert(stats0.contains_key(color_key(d)) <==> colors@.contains(d));
                    }
                    assert forall|k: int| 0 <= k < colors@.len() implies {
                        let d = #[trigger] colors@[k];
                        let st = stats@[color_key(d)];
                        &&& st.area == color_count(rgba@, d, i + 1)
                        &&& st.first.0 < width
                        &&& 0 <= st.first.1 * width + st.first.0 < i + 1
                        &&& px_rgb(rgba@, st.first.1 * width + st.first.0) == d
                        &&& forall|j: int| 0 <= j < st.first.1 * width + st.first.0 ==> px_rgb(rgba@, j) != d
                    } by {
                        let d = colors@[k];
                        lemma_color_key(c, d);
                    }
                }
            },
            None => {
                proof {
                    if seen_before.contains(c) {
                        assert(colors@.contains(c));
                    }
                    assert(!seen_before.contains(c));
                    assert(seen_colors(rgba@, i + 1) == seen_before.push(c));
                }
                if colors.len() >= MAX_UNIQUE_COLORS {
                    proof {
                        lemma_seen_prefix(rgba@, i + 1, n as int);
                    }
                    return Err(colors.len() + 1);
                }
                let i32 = i as u32;
                proof {
                    assert((i32 / width) * width + i32 % width == i32) by (nonlinear_arith)
                        requires
                            width > 0,
                    ;
                    assert forall|j: int| 0 <= j < i implies px_rgb(rgba@, j) != c by {
                        if px_rgb(rgba@, j) == c {
                            assert(exists|j2: int| 0 <= j2 < i && px_rgb(rgba@, j2) == c);
                        }
                    }
                    assert(color_count(rgba@, c, i as int) == 0) by {
                        lemma_color_count_zero(rgba@, c, i as int);
                    }
                }
                stats.insert(key, ColorStat { area: 1, first: (i32 % width, i32 / width) });
                let ghost colors0 = colors@;
                colors.push(c);
                proof {
                    assert forall|d: [u8; 3]| #[trigger] stats@.contains_key(color_key(d)) <==> colors@.contains(d) by {
                        lemma_color_key(c, d);
                        assert(stats0.contains_key(color_key(d)) <==> colors0.contains(d));
                        if d == c {
                            assert(colors@[colors0.len() as int] == d);
                        } else if colors@.contains(d) {
                            let k = choose|k: int| 0 <= k < colors@.len() && colors@[k] == d;
                            assert(k < colors0.len());
                            assert(colors0[k] == d);
                        } else if colors0.contains(d) {
                            let k = choose|k: int| 0 <= k < colors0.len() && colors0[k] == d;
                            assert(colors@[k] == d);
                        }
                    }
                    assert forall|k: int| 0 <= k < colors@.len() implies {
                        let d = #[trigger] colors@[k];
                        let st = stats@[color_key(d)];
                        &&& st.area == color_count(rgba@, d, i + 1)
                        &&& st.first.0 < width
                        &&& 0 <= st.first.1 * width + st.first.0 < i + 1
                        &&& px_rgb(rgba@, st.first.1 * width + st.first.0) == d
                        &&& forall|j: int| 0 <= j < st.first.1 * width + st.first.0 ==> px_rgb(rgba@, j) != d
                    } by {
                        let d = colors@[k];
                        lemma_color_key(c, d);
                        if k < colors0.len() {
                            assert(colors0[k] == d);
                            assert(d != c) by {
                                assert(colors0.contains(d));
                            }
                        }
                    }
                }
            },
        }
        i += 1;
    }
    let hist = ColorHistogram { stats, colors };
    proof {
        let seen = seen_colors(rgba@, n as int);
        assert forall|k: int| 0 <= k < seen.len() implies (#[trigger] hist.entries()[k]).0 == seen[k]
            && describes(rgba@, width as int, seen[k], hist.entries()[k].1) by {
            assert(hist.colors@[k] == seen[k]);
        }
    }
    Ok(hist)
}

proof fn lemma_color_count_bound(rgba: Seq<u8>, c: [u8; 3], i: int)
    requires
        0 <= i,
    ensures
        color_count(rgba, c, i) <= i,
    decreases i,
{
    if i > 0 {
        lemma_color_count_bound(rgba, c, i - 1);
    }
}

proof fn lemma_color_count_zero(rgba: Seq<u8>, c: [u8; 3], i: int)
    requires
        0 <= i,
        forall|j: int| 0 <= j < i ==> px_rgb(rgba, j) != c,
    ensures
        color_count(rgba, c, i) == 0,
    decreases i,
{
    if i > 0 {
        lemma_color_count_zero(rgba, c, i - 1);
    }
}

impl ColorHistogram {
    /// Each colour with its statistics, in order of first appearance.
    pub closed spec fn entries(&self) -> Seq<([u8; 3], ColorStat)> {
        self.colors@.map_values(|c: [u8; 3]| (c, self.stats@[color_key(c)]))
    }

    /// Exactly the listed colours have statistics.
    pub closed spec fn wf(&self) -> bool {
        forall|c: [u8; 3]| #[trigger] self.stats@.contains_key(color_key(c)) <==> self.colors@.contains(c)
    }

    /// The `k`-th colour, in order of first appearance, with its statistics.
    pub fn entry(&self, k: usize) -> (e: ([u8; 3], ColorStat))
        requires
            self.wf(),
            k < self.entries().len(),
        ensures
            e == self.entries()[k as int],
    {
        broadcast use vstd::std_specs::hash::group_hash_axioms;
        let c = self.colors[k];
        let key: u32 = c[0] as u32 * 65536 + c[1] as u32 * 256 + c[2] as u32;
        assert(key == color_key(c));
        assert(self.colors@.contains(c));
        match self.stats.get(&key) {
            Some(s) => (c, *s),
            None => {
                assert(false);
                (c, ColorStat { area: 0, first: (0, 0) })
            },
        }
    }

    /// The statistics of colour `rgb`, if it occurs.
    pub fn get(&self, rgb: [u8; 3]) -> (r: Option<ColorStat>)
        requires
            self.wf(),
        ensures
            r matches Some(s) ==> exists|k: int| 0 <= k < self.entries().len() && self.entries()[k].0 == rgb && self.entries()[k].1 == s,
            r is None ==> forall|k: int| 0 <= k < self.entries().len() ==> self.entries()[k].0 != rgb,
    {
        broadcast use vstd::std_specs::hash::group_hash_axioms;
        let key: u32 = rgb[0] as u32 * 65536 + rgb[1] as u32 * 256 + rgb[2] as u32;
        assert(key == color_key(rgb));
        match self.stats.get(&key) {
            Some(s) => {
                proof {
                    assert(self.colors@.contains(rgb));
                    let k = choose|k: int| 0 <= k < self.colors@.len() && self.colors@[k] == rgb;
                    assert(self.entries()[k].0 == rgb && self.entries()[k].1 == *s);
                }
                Some(*s)
            },
            None => {
                assert forall|k: int| 0 <= k < self.entries().len() implies self.entries()[k].0 != rgb by {
                    if self.colors@[k] == rgb {
                        assert(self.colors@.contains(rgb));
                    }
                }
                None
            },
        }
    }

    /// Number of distinct colours.
    pub fn len(&self) -> (n: usize)
        ensures
            n == self.entries().len(),
    {
        self.colors.len()
    }
}

/// How many of the first `i` entries of `s` equal `v`.
pub open spec fn count_eq(s: Seq<u32>, v: int, i: int) -> nat
    decreases i,
{
    if i <= 0 {
        0
    } else {
        count_eq(s, v, i - 1) + (if s[i - 1] == v { 1nat } else { 0nat })
    }
}

pub proof fn lemma_count_eq_bound(s: Seq<u32>, v: int, i: int)
    requires
        0 <= i,
    ensures
        count_eq(s, v, i) <= i,
    decreases i,
{
    if i > 0 {
        lemma_count_eq_bound(s, v, i - 1);
    }
}

/// How an update at `x` changes the count of `v` among the first `i` entries.
pub proof fn lemma_count_eq_update(s: Seq<u32>, v: int, i: int, x: int, val: u32)
    requires
        0 <= i <= s.len(),
        0 <= x < s.len(),
    ensures
        count_eq(s.update(x, val), v, i) == count_eq(s, v, i) - (if x < i && s[x] == v { 1int } else { 0int })
            + (if x < i && val == v { 1int } else { 0int }),
    decreases i,
{
    if i > 0 {
        lemma_count_eq_update(s, v, i - 1, x, val);
    }
}

/// Per-region pixel counts of a label map. Unclaimed pixels (`UNASSIGNED`) do
/// not count.
pub fn region_areas(labels: &[u32], count: usize) -> (areas: Vec<u32>)
    requires
        labels@.len() <= u32::MAX,
        count <= UNASSIGNED,
        forall|i: int| 0 <= i < labels@.len() ==> (#[trigger] labels@[i]) == UNASSIGNED || labels@[i] < count,
    ensures
        areas@.len() == count,
        forall|k: int| 0 <= k < count ==> (#[trigger] areas@[k]) == count_eq(labels@, k, labels@.len() as int),
{
    let mut areas: Vec<u32> = vec![0u32; count];
    let mut i: usize = 0;
    while i < labels.len()
        invariant
            labels@.len() <= u32::MAX,
            count <= UNASSIGNED,
            forall|j: int| 0 <= j < labels@.len() ==> (#[trigger] labels@[j]) == UNASSIGNED || labels@[j] < count,
            i <= labels@.len(),
            areas@.len() == count,
            forall|k: int| 0 <= k < count ==> (#[trigger] areas@[k]) == count_eq(labels@, k, i as int),
        decreases labels@.len() - i,
    {
        let id = labels[i];
        if id != UNASSIGNED {
            proof {
                lemma_count_eq_bound(labels@, id as int, i as int);
            }
            let a = areas[id as usize];
            areas.set(id as usize, a + 1);
        }
        proof {
            assert forall|k: int| 0 <= k < count implies (#[trigger] areas@[k]) == count_eq(labels@, k, i + 1) by {
                assert(count_eq(labels@, k, i + 1) == count_eq(labels@, k, i as int)
                    + (if labels@[i as int] == k { 1nat } else { 0nat }));
            }
        }
        i += 1;
    }
    areas
}

/// A labelled image: every pixel carries the id of its region.
#[derive(Debug, Clone)]
pub struct RegionMap {
    pub width: u32,
    pub height: u32,
    /// Region id per pixel; length `width * height`.
    pub labels: Vec<u32>,
    pub count: u32,
    /// Pixels per region, indexed by id.
    pub areas: Vec<u32>,
    /// First pixel (linear index, raster order) of each region.
    pub first_pixel: Vec<u32>,
}

/// `first` is where label `k` first occurs in `labels`, or `UNASSIGNED` when it never does.
pub open spec fn first_of(labels: Seq<u32>, k: int, first: u32) -> bool {
    if first == UNASSIGNED {
        forall|j: int| 0 <= j < labels.len() ==> labels[j] != k
    } else {
        &&& first < labels.len()
        &&& labels[first as int] == k
        &&& forall|j: int| 0 <= j < first ==> labels[j] != k
    }
}

/// The bookkeeping of a region map is consistent with its labels.
pub open spec fn region_map_wf(m: RegionMap) -> bool {
    let n = m.labels@.len();
    &&& n == m.width * m.height
    &&& n <= u32::MAX
    &&& m.areas@.len() == m.count
    &&& m.first_pixel@.len() == m.count
    &&& forall|i: int| 0 <= i < n ==> (#[trigger] m.labels@[i]) < m.count
    &&& forall|k: int| 0 <= k < m.count ==> (#[trigger] m.areas@[k]) == count_eq(m.labels@, k, n as int)
    &&& forall|k: int| 0 <= k < m.count ==> first_of(m.labels@, k, #[trigger] m.first_pixel@[k])
}

impl RegionMap {
    /// Linear pixel index → `(x, y)`.
    pub fn coord(&self, index: u32) -> (xy: (u32, u32))
        requires
            self.width > 0,
        ensures
            xy == ((index % self.width) as u32, (index / self.width) as u32),
    {
        (index % self.width, index / self.width)
    }

    /// A region map over complete labels (no pixel left unclaimed): areas and
    /// first pixels are recomputed from the labels.
    pub fn from_labels(labels: Vec<u32>, width: u32, height: u32, count: u32) -> (m: RegionMap)
        requires
            labels@.len() == width * height,
            labels@.len() <= u32::MAX,
            forall|i: int| 0 <= i < labels@.len() ==> (#[trigger] labels@[i]) < count,
        ensures
            region_map_wf(m),
            m.labels@ == labels@,
            m.width == width,
            m.height == height,
            m.count == count,
    {
        let areas = region_areas(&labels, count as usize);
        let mut first_pixel: Vec<u32> = vec![UNASSIGNED; count as usize];
        let n = labels.len();
        let mut i: usize = 0;
        while i < n
            invariant
                n == labels@.len(),
                n <= u32::MAX,
                forall|j: int| 0 <= j < n ==> (#[trigger] labels@[j]) < count,
                i <= n,
                first_pixel@.len() == count,
                forall|k: int| 0 <= k < count ==> first_of(labels@.subrange(0, i as int), k, #[trigger] first_pixel@[k]),
            decreases n - i,
        {
            let id = labels[i] as usize;
            if first_pixel[id] == UNASSIGNED {
                first_pixel.set(id, i as u32);
            }
            proof {
                let pre = labels@.subrange(0, i as int);
                let post = labels@.subrange(0, i + 1);
                assert forall|k: int| 0 <= k < count implies first_of(post, k, #[trigger] first_pixel@[k]) by {
                    assert forall|j: int| 0 <= j < i implies post[j] == pre[j] by {}
                    assert(post[i as int] == labels@[i as int]);
                }
            }
            i += 1;
        }
        assert(labels@.subrange(0, n as int) =~= labels@);
        RegionMap { width, height, labels, count, areas, first_pixel }
    }
}

/// The colour key of every pixel.
pub open spec fn rgb_keys(rgba: Seq<u8>, n: int) -> Seq<u32> {
    Seq::new(n as nat, |i: int| rgb_key(px_rgb(rgba, i)) as u32)
}

/// Every pixel is active.
pub open spec fn all_active(n: int) -> Seq<bool> {
    Seq::new(n as nat, |i: int| true)
}

/// Labels the 4-connected regions of equal colour.
///
/// **4-connectivity**: 8-connectivity would merge two same-coloured blocks that
/// only touch diagonally, while the artist's mental model is "connected areas
/// merge". Ids follow the raster order of each region's first pixel.
pub fn label_regions(rgba: &[u8], width: u32, height: u32) -> (m: RegionMap)
    requires
        width * height < NONE,
        rgba@.len() >= width * height * 4,
    ensures
        region_map_wf(m),
        m.width == width,
        m.height == height,
        exists|c: Components| #[trigger] is_labelling(c, rgb_keys(rgba@, width * height), all_active(width * height), width as int, height as int)
            && c.labels@ == m.labels@ && c.first@ == m.first_pixel@,
{
    let (w, h) = (width as usize, height as usize);
    let n = w * h;
    let mut keys: Vec<u32> = Vec::with_capacity(n);
    let mut active: Vec<bool> = Vec::with_capacity(n);
    let mut i: usize = 0;
    while i < n
        invariant
            n == w * h,
            rgba@.len() >= n * 4,
            i <= n,
            keys@.len() == i,
            active@.len() == i,
            forall|j: int| 0 <= j < i ==> keys@[j] == rgb_key(px_rgb(rgba@, j)) as u32,
            forall|j: int| 0 <= j < i ==> active@[j],
        decreases n - i,
    {
        assert(4 * i + 3 < rgba.len());
        let key = rgba[4 * i] as u32 * 65536 + rgba[4 * i + 1] as u32 * 256 + rgba[4 * i + 2] as u32;
        keys.push(key);
        active.push(true);
        i += 1;
    }
    assert(keys@ =~= rgb_keys(rgba@, n as int));
    assert(active@ =~= all_active(n as int));
    let c = label_components(&keys, &active, w, h);
    let count = c.first.len() as u32;
    assert forall|j: int| 0 <= j < n implies (#[trigger] c.labels@[j]) < count by {
        assert(active@[j]);
    }
    let labels = c.labels.clone();
    let first_pixel = c.first.clone();
    assert(labels@ == c.labels@);
    let areas = region_areas(&labels, count as usize);
    proof {
        assert forall|k: int| 0 <= k < count implies first_of(labels@, k, #[trigger] first_pixel@[k]) by {
            let f = first_pixel@[k];
            assert(f < n && labels@[f as int] == k);
            assert(f != UNASSIGNED);
            assert forall|j: int| 0 <= j < f implies labels@[j] != k by {
                if labels@[j] == k {
                    assert(c.labels@[j] != NONE);
                    assert(first_pixel@[labels@[j] as int] <= j);
                }
            }
        }
    }
    RegionMap { width, height, labels, count, areas, first_pixel }
}

/// Re-runs 4-connectivity on an existing id map and reports into how many
/// pieces each id is split (a region whose 1 px neck vanished in downsampling).
pub fn count_components_per_id(ids: &[u32], width: u32, height: u32, count: u32) -> (pieces: Vec<u32>)
    requires
        width * height < NONE,
        ids@.len() >= width * height,
        forall|i: int| 0 <= i < width * height ==> (#[trigger] ids@[i]) < count,
    ensures
        pieces@.len() == count,
        exists|c: Components| #[trigger] is_labelling(c, ids@.subrange(0, width * height), all_active(width * height), width as int, height as int)
            && forall|v: int| 0 <= v < count ==> (#[trigger] pieces@[v]) == count_eq(component_keys(c, ids@), v, c.first@.len() as int),
{
    let (w, h) = (width as usize, height as usize);
    let n = w * h;
    let mut keys: Vec<u32> = Vec::with_capacity(n);
    let mut active: Vec<bool> = Vec::with_capacity(n);
    let mut i: usize = 0;
    while i < n
        invariant
            n == w * h,
            ids@.len() >= n,
            i <= n,
            keys@.len() == i,
            active@.len() == i,
            forall|j: int| 0 <= j < i ==> keys@[j] == ids@[j],
            forall|j: int| 0 <= j < i ==> active@[j],
        decreases n - i,
    {
        keys.push(ids[i]);
        active.push(true);
        i += 1;
    }
    assert(keys@ =~= ids@.subrange(0, n as int));
    assert(active@ =~= all_active(n as int));
    let c = label_components(&keys, &active, w, h);
    let mut pieces: Vec<u32> = vec![0u32; count as usize];
    let m = c.first.len();
    let mut k: usize = 0;
    while k < m
        invariant
            n == w * h,
            n < NONE,
            m == c.first@.len(),
            is_labelling(c, keys@, active@, w as int, h as int),
            keys@ == ids@.subrange(0, n as int),
            ids@.len() >= n,
            forall|j: int| 0 <= j < n ==> (#[trigger] ids@[j]) < count,
            k <= m,
            pieces@.len() == count,
            forall|v: int| 0 <= v < count ==> (#[trigger] pieces@[v]) == count_eq(component_keys(c, ids@), v, k as int),
        decreases m - k,
    {
        let f = c.first[k] as usize;
        let id = ids[f];
        proof {
            lemma_count_eq_bound(component_keys(c, ids@), id as int, k as int);
        }
        let a = pieces[id as usize];
        pieces.set(id as usize, a + 1);
        proof {
            assert forall|v: int| 0 <= v < count implies (#[trigger] pieces@[v]) == count_eq(component_keys(c, ids@), v, k + 1) by {
                assert(component_keys(c, ids@)[k as int] == id);
            }
        }
        k += 1;
    }
    pieces
}

/// The key (id) of each component, in component order.
pub open spec fn component_keys(c: Components, ids: Seq<u32>) -> Seq<u32> {
    Seq::new(c.first@.len(), |k: int| ids[c.first@[k] as int])
}

} // verus!
