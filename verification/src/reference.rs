//! Consistency of `reference` with `flats`, and the suggested colour of each region.
//!
//! There is one check only: inside every flats region the reference is a single
//! colour. Neighbouring regions may share a reference colour, so no adjacency is
//! needed.
use vstd::prelude::*;
use crate::code;
use crate::report::{capped, Coords, Diagnostic, Severity, Stage};
use crate::segment::{px_rgb, same_rgb, RegionMap, region_map_wf};
use crate::text::{dec, decimal, hex_color, hex_color_spec};

verus! {

/// The suggested colour of each region, indexed by region id.
pub struct Suggested {
    pub colors: Vec<[u8; 3]>,
}

/// Colour of the first of the first `i` pixels that lies in region `id`.
pub open spec fn first_rgb(rgba: Seq<u8>, labels: Seq<u32>, id: int, i: int) -> Option<[u8; 3]>
    decreases i,
{
    if i <= 0 {
        None
    } else {
        match first_rgb(rgba, labels, id, i - 1) {
            Some(c) => Some(c),
            None => if labels[i - 1] == id { Some(px_rgb(rgba, i - 1)) } else { None },
        }
    }
}

/// Some pixel of `ps` lies in region `id`.
pub open spec fn hits(ps: Seq<u32>, labels: Seq<u32>, id: int) -> bool {
    exists|k: int| 0 <= k < ps.len() && labels[ps[k] as int] == id
}

/// Among the first `i` pixels, the first pixel of each region whose colour differs
/// from the region's first colour, in raster order.
pub open spec fn mismatches(rgba: Seq<u8>, labels: Seq<u32>, i: int) -> Seq<u32>
    decreases i,
{
    if i <= 0 {
        Seq::empty()
    } else {
        let prev = mismatches(rgba, labels, i - 1);
        let id = labels[i - 1] as int;
        match first_rgb(rgba, labels, id, i - 1) {
            Some(c) => if c != px_rgb(rgba, i - 1) && !hits(prev, labels, id) {
                prev.push((i - 1) as u32)
            } else {
                prev
            },
            None => prev,
        }
    }
}

/// `(x, y)` of each pixel index on a `w`-wide raster.
pub open spec fn coords_of(ps: Seq<u32>, w: u32) -> Seq<(u32, u32)> {
    ps.map_values(|p: u32| ((p % w) as u32, (p / w) as u32))
}

pub open spec fn mismatch_message(n: nat) -> Seq<char> {
    dec(n) + " 個 flats 區域的 reference 內部不是單一顏色（座標是每個區域的首個相異像素）。複製 flats 圖層重做，每區只塗一個顏色"@
}

proof fn lemma_mismatches_bound(rgba: Seq<u8>, labels: Seq<u32>, i: int)
    requires
        0 <= i,
    ensures
        mismatches(rgba, labels, i).len() <= i,
        forall|k: int| 0 <= k < mismatches(rgba, labels, i).len() ==> (#[trigger] mismatches(rgba, labels, i)[k]) < i,
    decreases i,
{
    if i > 0 {
        lemma_mismatches_bound(rgba, labels, i - 1);
    }
}

/// Two of the first `i` pixels lie in one region and differ in colour.
pub open spec fn two_colours_in_a_region(rgba: Seq<u8>, labels: Seq<u32>, i: int) -> bool {
    exists|p: int, q: int| 0 <= p < i && 0 <= q < i && labels[p] == labels[q] && #[trigger] px_rgb(rgba, p) != #[trigger] px_rgb(rgba, q)
}

proof fn lemma_first_rgb(rgba: Seq<u8>, labels: Seq<u32>, id: int, i: int)
    requires
        0 <= i,
    ensures
        first_rgb(rgba, labels, id, i) matches Some(c) ==> exists|f: int| 0 <= f < i && labels[f] == id && px_rgb(rgba, f) == c,
        first_rgb(rgba, labels, id, i) is None ==> forall|f: int| 0 <= f < i ==> labels[f] != id,
    decreases i,
{
    if i > 0 {
        lemma_first_rgb(rgba, labels, id, i - 1);
    }
}

/// A region is reported exactly when it holds two pixels whose reference
/// colours differ, in any of the three channels: the list of first differing
/// pixels is empty exactly when every region is a single colour.
pub proof fn law_mismatch_exactly_when_a_region_has_two_colours(rgba: Seq<u8>, labels: Seq<u32>, i: int)
    requires
        0 <= i,
    ensures
        mismatches(rgba, labels, i).len() > 0 <==> two_colours_in_a_region(rgba, labels, i),
    decreases i,
{
    if i > 0 {
        law_mismatch_exactly_when_a_region_has_two_colours(rgba, labels, i - 1);
        let prev = mismatches(rgba, labels, i - 1);
        let t = i - 1;
        let id = labels[t] as int;
        if two_colours_in_a_region(rgba, labels, i - 1) {
            let (p, q) = choose|p: int, q: int| 0 <= p < i - 1 && 0 <= q < i - 1 && labels[p] == labels[q] && #[trigger] px_rgb(rgba, p) != #[trigger] px_rgb(rgba, q);
            assert(px_rgb(rgba, p) != px_rgb(rgba, q));
            assert(two_colours_in_a_region(rgba, labels, i));
        } else {
            lemma_first_rgb(rgba, labels, id, i - 1);
            assert(!hits(prev, labels, id));
            match first_rgb(rgba, labels, id, i - 1) {
                Some(c) => {
                    let f = choose|f: int| 0 <= f < i - 1 && labels[f] == id && px_rgb(rgba, f) == c;
                    if c != px_rgb(rgba, t) {
                        assert(px_rgb(rgba, f) != px_rgb(rgba, t));
                        assert(two_colours_in_a_region(rgba, labels, i));
                    } else if two_colours_in_a_region(rgba, labels, i) {
                        let (p, q) = choose|p: int, q: int| 0 <= p < i && 0 <= q < i && labels[p] == labels[q] && #[trigger] px_rgb(rgba, p) != #[trigger] px_rgb(rgba, q);
                        if p == t && q != t {
                            assert(px_rgb(rgba, f) != px_rgb(rgba, q));
                        } else if q == t && p != t {
                            assert(px_rgb(rgba, f) != px_rgb(rgba, p));
                        } else if p != t && q != t {
                            assert(px_rgb(rgba, p) != px_rgb(rgba, q));
                        }
                    }
                },
                None => {
                    if two_colours_in_a_region(rgba, labels, i) {
                        let (p, q) = choose|p: int, q: int| 0 <= p < i && 0 <= q < i && labels[p] == labels[q] && #[trigger] px_rgb(rgba, p) != #[trigger] px_rgb(rgba, q);
                        if p != t && q != t {
                            assert(px_rgb(rgba, p) != px_rgb(rgba, q));
                        }
                    }
                },
            }
        }
    }
}

/// One linear scan that both checks consistency and picks the suggested colours:
/// the colour of a region is that of its first pixel; a region with a second
/// colour is reported once, at its first differing pixel.
pub fn read(reference_rgba: &[u8], regions: &RegionMap) -> (r: (Suggested, Option<Diagnostic>))
    requires
        region_map_wf(*regions),
        reference_rgba@.len() / 4 <= regions.labels@.len(),
    ensures
        ({
            let n = reference_rgba@.len() / 4;
            let labels = regions.labels@;
            let ms = mismatches(reference_rgba@, labels, n as int);
            &&& r.0.colors@.len() == regions.count
            &&& forall|id: int| 0 <= id < regions.count ==> (#[trigger] r.0.colors@[id]) == match first_rgb(reference_rgba@, labels, id, n as int) {
                Some(c) => c,
                None => [0u8, 0u8, 0u8],
            }
            &&& (r.1 is Some <==> ms.len() > 0)
            &&& (r.1 is Some <==> two_colours_in_a_region(reference_rgba@, labels, n as int))
            &&& (r.1 matches Some(d) ==> {
                &&& d.severity == Severity::Error
                &&& d.code == code::REF_MISMATCH
                &&& d.stage == Stage::Master
                &&& d.message@ == mismatch_message(ms.len())
                &&& d.coords@ == capped(coords_of(ms, regions.width))
                &&& d.coord_total == ms.len()
                &&& d.region == Some(labels[ms[0] as int])
            })
        }),
{
    let count = regions.count as usize;
    let n = reference_rgba.len() / 4;
    let ghost labels = regions.labels@;
    let ghost rgba = reference_rgba@;
    let mut colors: Vec<[u8; 3]> = vec![[0u8; 3]; count];
    let mut seen: Vec<bool> = vec![false; count];
    let mut reported: Vec<bool> = vec![false; count];
    let mut coords = Coords::master();
    let mut first_region: Option<u32> = None;
    let mut i: usize = 0;
    while i < n
        invariant
            region_map_wf(*regions),
            labels == regions.labels@,
            rgba == reference_rgba@,
            n == rgba.len() / 4,
            rgba.len() == reference_rgba.len(),
            n <= labels.len(),
            count == regions.count,
            i <= n,
            colors@.len() == count,
            seen@.len() == count,
            reported@.len() == count,
            forall|id: int| 0 <= id < count ==> (#[trigger] seen@[id]) == (first_rgb(rgba, labels, id, i as int) is Some),
            forall|id: int| 0 <= id < count ==> (#[trigger] colors@[id]) == match first_rgb(rgba, labels, id, i as int) {
                Some(c) => c,
                None => [0u8, 0u8, 0u8],
            },
            forall|id: int| 0 <= id < count ==> (#[trigger] reported@[id]) == hits(mismatches(rgba, labels, i as int), labels, id),
            coords.wf(),
            coords.factor() == 1,
            coords.points() == coords_of(mismatches(rgba, labels, i as int), regions.width),
            first_region == (if mismatches(rgba, labels, i as int).len() > 0 {
                Some(labels[mismatches(rgba, labels, i as int)[0] as int])
            } else {
                None::<u32>
            }),
        decreases n - i,
    {
        proof {
            lemma_mismatches_bound(rgba, labels, i as int);
            coords.lemma_wf();
        }
        let id = regions.labels[i] as usize;
        assert(4 * i + 3 < rgba.len()) by (nonlinear_arith)
            requires
                i < n,
                n == rgba.len() / 4,
        ;
        let rgb = [reference_rgba[4 * i], reference_rgba[4 * i + 1], reference_rgba[4 * i + 2]];
        assert(rgb == px_rgb(rgba, i as int));
        let ghost prev = mismatches(rgba, labels, i as int);
        if !seen[id] {
            seen.set(id, true);
            colors.set(id, rgb);
        } else if !same_rgb(colors[id], rgb) && !reported[id] {
            reported.set(id, true);
            assert(regions.width > 0) by (nonlinear_arith)
                requires
                    i < labels.len(),
                    labels.len() == regions.width * regions.height,
            ;
            let (x, y) = regions.coord(i as u32);
            coords.push(x, y);
            if first_region.is_none() {
                first_region = Some(id as u32);
            }
        }
        proof {
            let ii = i as int + 1;
            let cur = mismatches(rgba, labels, ii);
            assert(coords_of(cur, regions.width) =~= coords.points());
            assert forall|v: int| 0 <= v < count implies (#[trigger] reported@[v]) == hits(cur, labels, v) by {
                if cur.len() > prev.len() {
                    if hits(cur, labels, v) && v != id {
                        let k = choose|k: int| 0 <= k < cur.len() && labels[cur[k] as int] == v;
                        assert(k < prev.len());
                        assert(prev[k] == cur[k]);
                    }
                    if hits(prev, labels, v) {
                        let k = choose|k: int| 0 <= k < prev.len() && labels[prev[k] as int] == v;
                        assert(cur[k] == prev[k]);
                    }
                    if v == id {
                        assert(labels[cur[prev.len() as int] as int] == v);
                    }
                }
            }
            if prev.len() > 0 {
                assert(cur[0] == prev[0]);
            }
        }
        i += 1;
    }
    proof {
        coords.lemma_wf();
        law_mismatch_exactly_when_a_region_has_two_colours(rgba, labels, n as int);
    }
    let suggested = Suggested { colors };
    if coords.is_empty() {
        return (suggested, None);
    }
    let mut msg = decimal(coords.total() as u64);
    msg.append(" 個 flats 區域的 reference 內部不是單一顏色（座標是每個區域的首個相異像素）。複製 flats 圖層重做，每區只塗一個顏色");
    let mut d = Diagnostic::error(code::REF_MISMATCH, Stage::Master, msg).with_coords(coords);
    if let Some(region) = first_region {
        d = d.with_region(region);
    }
    (suggested, Some(d))
}

/// A palette entry: colour, total output area, smallest region id of that colour.
pub type PaletteEntry = ([u8; 3], int, int);

/// Output area of region `id`; regions past the end of `areas` count as empty.
pub open spec fn area_at(areas: Seq<u32>, id: int) -> int {
    if 0 <= id < areas.len() { areas[id] as int } else { 0 }
}

/// Index of the entry of colour `c` among the first `n` of `es`, or -1.
pub open spec fn color_pos(es: Seq<PaletteEntry>, c: [u8; 3], n: int) -> int
    decreases n,
{
    if n <= 0 {
        -1
    } else if color_pos(es, c, n - 1) >= 0 {
        color_pos(es, c, n - 1)
    } else if es[n - 1].0 == c {
        n - 1
    } else {
        -1
    }
}

/// The distinct colours of regions `0..i`, in order of first appearance, each with
/// its total area and its smallest region id.
pub open spec fn palette_entries(colors: Seq<[u8; 3]>, areas: Seq<u32>, i: int) -> Seq<PaletteEntry>
    decreases i,
{
    if i <= 0 {
        Seq::empty()
    } else {
        let es = palette_entries(colors, areas, i - 1);
        let c = colors[i - 1];
        let k = color_pos(es, c, es.len() as int);
        if k >= 0 {
            es.update(k, (c, es[k].1 + area_at(areas, i - 1), es[k].2))
        } else {
            es.push((c, area_at(areas, i - 1), i - 1))
        }
    }
}

/// The mathematical view of an accumulated entry.
pub open spec fn entry_view(e: ([u8; 3], u64, u32)) -> PaletteEntry {
    (e.0, e.1 as int, e.2 as int)
}

pub open spec fn entries_view(v: Seq<([u8; 3], u64, u32)>) -> Seq<PaletteEntry> {
    v.map_values(|e: ([u8; 3], u64, u32)| entry_view(e))
}

/// `a` comes before `b`: larger total area first, the smaller region id on a tie.
pub open spec fn ranks_before(a: PaletteEntry, b: PaletteEntry) -> bool {
    a.1 > b.1 || (a.1 == b.1 && a.2 < b.2)
}

/// `sorted` holds the entries `es`, each once, in palette order.
pub open spec fn ranked(sorted: Seq<PaletteEntry>, es: Seq<PaletteEntry>) -> bool {
    &&& sorted.len() == es.len()
    &&& forall|k: int| 0 <= k < es.len() ==> sorted.contains(#[trigger] es[k])
    &&& forall|k: int| 0 <= k < sorted.len() ==> es.contains(#[trigger] sorted[k])
    &&& forall|a: int, b: int| 0 <= a < b < sorted.len() ==> ranks_before(#[trigger] sorted[a], #[trigger] sorted[b])
}

proof fn lemma_color_pos(es: Seq<PaletteEntry>, c: [u8; 3], n: int)
    requires
        0 <= n <= es.len(),
    ensures
        -1 <= color_pos(es, c, n) < n,
        color_pos(es, c, n) >= 0 ==> es[color_pos(es, c, n)].0 == c,
        color_pos(es, c, n) >= 0 ==> forall|k: int| 0 <= k < color_pos(es, c, n) ==> (#[trigger] es[k]).0 != c,
        color_pos(es, c, n) < 0 ==> forall|k: int| 0 <= k < n ==> (#[trigger] es[k]).0 != c,
    decreases n,
{
    if n > 0 {
        lemma_color_pos(es, c, n - 1);
    }
}

proof fn lemma_palette_entries(colors: Seq<[u8; 3]>, areas: Seq<u32>, i: int)
    requires
        0 <= i <= colors.len(),
    ensures
        palette_entries(colors, areas, i).len() <= i,
        forall|k: int| 0 <= k < palette_entries(colors, areas, i).len() ==> {
            let e = #[trigger] palette_entries(colors, areas, i)[k];
            &&& 0 <= e.1 <= i * (u32::MAX as int)
            &&& 0 <= e.2 < i
        },
        forall|a: int, b: int| 0 <= a < b < palette_entries(colors, areas, i).len() ==>
            (#[trigger] palette_entries(colors, areas, i)[a]).2 < (#[trigger] palette_entries(colors, areas, i)[b]).2,
    decreases i,
{
    if i > 0 {
        lemma_palette_entries(colors, areas, i - 1);
        let es = palette_entries(colors, areas, i - 1);
        lemma_color_pos(es, colors[i - 1], es.len() as int);
        assert forall|k: int| 0 <= k < es.len() implies (#[trigger] es[k]).1 + area_at(areas, i - 1) <= i * (u32::MAX as int) by {
            assert(es[k].1 <= (i - 1) * (u32::MAX as int));
            assert((i - 1) * (u32::MAX as int) + u32::MAX == i * (u32::MAX as int)) by (nonlinear_arith);
        }
        assert((i - 1) * (u32::MAX as int) + u32::MAX == i * (u32::MAX as int)) by (nonlinear_arith);
        assert(0 <= (i - 1) * (u32::MAX as int)) by (nonlinear_arith)
            requires
                i >= 1,
        ;
    }
}

/// The palette: the distinct suggested colours, by decreasing total output area,
/// the smaller region id first on a tie. Areas are at output resolution.
pub fn palette(colors: &[[u8; 3]], output_areas: &[u32]) -> (out: Vec<String>)
    requires
        colors@.len() <= u32::MAX,
    ensures
        exists|sorted: Seq<PaletteEntry>| #[trigger] ranked(sorted, palette_entries(colors@, output_areas@, colors@.len() as int))
            && out@.len() == sorted.len()
            && forall|k: int| 0 <= k < sorted.len() ==> (#[trigger] out@[k])@ == hex_color_spec(sorted[k].0),
{
    let mut acc: Vec<([u8; 3], u64, u32)> = Vec::new();
    let n = colors.len();
    let mut id: usize = 0;
    while id < n
        invariant
            n == colors@.len(),
            n <= u32::MAX,
            id <= n,
            entries_view(acc@) == palette_entries(colors@, output_areas@, id as int),
        decreases n - id,
    {
        proof {
            lemma_palette_entries(colors@, output_areas@, id as int);
            lemma_color_pos(entries_view(acc@), colors@[id as int], acc@.len() as int);
        }
        let area: u64 = if id < output_areas.len() { output_areas[id] as u64 } else { 0 };
        let color = colors[id];
        let mut k: usize = 0;
        let mut found = false;
        while k < acc.len()
            invariant_except_break
                k <= acc@.len(),
                !found,
                forall|j: int| 0 <= j < k ==> (#[trigger] acc@[j]).0 != color,
            ensures
                found ==> k < acc@.len() && acc@[k as int].0 == color,
                forall|j: int| 0 <= j < k ==> (#[trigger] acc@[j]).0 != color,
                !found ==> forall|j: int| 0 <= j < acc@.len() ==> (#[trigger] acc@[j]).0 != color,
            decreases acc@.len() - k,
        {
            if same_rgb(acc[k].0, color) {
                found = true;
                break;
            }
            k += 1;
        }
        let ghost es = entries_view(acc@);
        if found {
            proof {
                let p = color_pos(es, color, es.len() as int);
                assert(es[k as int].0 == color);
                if p >= 0 && p < k {
                    assert(acc@[p].0 != color);
                }
            }
            let e = acc[k];
            assert(e.1 + area <= u64::MAX) by (nonlinear_arith)
                requires
                    e.1 <= id * (u32::MAX as int),
                    area <= u32::MAX,
                    id < u32::MAX,
            ;
            acc.set(k, (e.0, e.1 + area, e.2));
            assert(entries_view(acc@) =~= palette_entries(colors@, output_areas@, id as int + 1));
        } else {
            assert forall|j: int| 0 <= j < es.len() implies (#[trigger] es[j]).0 != color by {
                assert(acc@[j].0 != color);
            }
            acc.push((color, area, id as u32));
            assert(entries_view(acc@) =~= palette_entries(colors@, output_areas@, id as int + 1));
        }
        id += 1;
    }
    let ghost es = palette_entries(colors@, output_areas@, n as int);
    proof {
        lemma_palette_entries(colors@, output_areas@, n as int);
    }
    let mut sorted: Vec<([u8; 3], u64, u32)> = Vec::new();
    let mut i: usize = 0;
    while i < acc.len()
        invariant
            entries_view(acc@) == es,
            i <= acc@.len(),
            sorted@.len() == i,
            forall|a: int, b: int| 0 <= a < b < es.len() ==> (#[trigger] es[a]).2 < (#[trigger] es[b]).2,
            forall|k: int| 0 <= k < i ==> entries_view(sorted@).contains(#[trigger] es[k]),
            forall|k: int| 0 <= k < sorted@.len() ==> exists|j: int| 0 <= j < i && (#[trigger] entries_view(sorted@)[k]) == es[j],
            forall|a: int, b: int| 0 <= a < b < sorted@.len() ==>
                ranks_before(#[trigger] entries_view(sorted@)[a], #[trigger] entries_view(sorted@)[b]),
        decreases acc@.len() - i,
    {
        let e = acc[i];
        let ghost ev = entry_view(e);
        assert(ev == es[i as int]);
        let ghost before = entries_view(sorted@);
        let mut pos: usize = 0;
        while pos < sorted.len() && (sorted[pos].1 > e.1 || (sorted[pos].1 == e.1 && sorted[pos].2 < e.2))
            invariant
                pos <= sorted@.len(),
                before == entries_view(sorted@),
                ev == entry_view(e),
                forall|k: int| 0 <= k < pos ==> ranks_before(#[trigger] before[k], ev),
            decreases sorted@.len() - pos,
        {
            assert(before[pos as int] == entry_view(sorted@[pos as int]));
            pos += 1;
        }
        proof {
            if pos < sorted.len() {
                assert(before[pos as int] == entry_view(sorted@[pos as int]));
                let j = choose|j: int| 0 <= j < i && before[pos as int] == es[j];
                assert(es[j].2 < es[i as int].2);
            }
        }
        // everything at or after `pos` ranks after `e`
        assert forall|k: int| pos <= k < before.len() implies ranks_before(ev, #[trigger] before[k]) by {
            let j = choose|j: int| 0 <= j < i && before[k] == es[j];
            assert(es[j].2 < es[i as int].2);
            if k > pos {
                assert(ranks_before(before[pos as int], before[k]));
            }
        }
        sorted.insert(pos, e);
        proof {
            let after = entries_view(sorted@);
            assert(after =~= before.insert(pos as int, ev));
            assert forall|k: int| 0 <= k < i + 1 implies after.contains(#[trigger] es[k]) by {
                if k < i {
                    let m = choose|m: int| 0 <= m < before.len() && before[m] == es[k];
                    if m < pos {
                        assert(after[m] == es[k]);
                    } else {
                        assert(after[m + 1] == es[k]);
                    }
                } else {
                    assert(after[pos as int] == es[k]);
                }
            }
            assert forall|k: int| 0 <= k < after.len() implies exists|j: int| 0 <= j < i + 1 && (#[trigger] after[k]) == es[j] by {
                if k < pos {
                    assert(after[k] == before[k]);
                } else if k == pos {
                    assert(after[k] == es[i as int]);
                } else {
                    assert(after[k] == before[k - 1]);
                }
            }
        }
        i += 1;
    }
    let mut out: Vec<String> = Vec::new();
    let mut k: usize = 0;
    while k < sorted.len()
        invariant
            k <= sorted@.len(),
            out@.len() == k,
            forall|j: int| 0 <= j < k ==> (#[trigger] out@[j])@ == hex_color_spec(sorted@[j].0),
        decreases sorted@.len() - k,
    {
        out.push(hex_color(sorted[k].0));
        k += 1;
    }
    proof {
        let sv = entries_view(sorted@);
        assert forall|k: int| 0 <= k < sv.len() implies es.contains(#[trigger] sv[k]) by {
            let j = choose|j: int| 0 <= j < es.len() && sv[k] == es[j];
        }
        assert(ranked(sv, es));
        assert forall|k: int| 0 <= k < sv.len() implies (#[trigger] out@[k])@ == hex_color_spec(sv[k].0) by {
            assert(out@[k]@ == hex_color_spec(sorted@[k].0));
        }
    }
    out
}

} // verus!
