//! Checks at master resolution.
use vstd::prelude::*;
use crate::code;
use crate::compose::{luma, luma_spec};
use crate::image::Image;
use crate::reference::coords_of;
use crate::report::{capped, Coords, Diagnostic, Severity, Stage, UniqueColors};
use crate::segment::{self, px_rgb, rgb_key, same_rgb, seen_colors, describes, ColorStat, MIN_COLOR_AREA, MAX_UNIQUE_COLORS, RESERVED_COLOR};
use crate::text::{dec, decimal, push_decimal, hex_color_spec, hex_color};

verus! {

/// Long edge of a master.
pub const MASTER_LONG_EDGE: u32 = 4096;

/// `shade` may have no pixel darker than this luma once composited onto white:
/// that darkness can only be line art.
pub const SHADE_MIN_LUMA: u8 = 60;

/// The two accepted canvas shapes.
#[derive(Debug, Clone, Copy, PartialEq, Eq, Structural)]
pub enum Aspect {
    /// 1:1, 4096×4096.
    Square,
    /// 3:4, 3072×4096.
    Portrait,
}

pub open spec fn aspect_of(w: u32, h: u32) -> Option<Aspect> {
    if w == 4096 && h == 4096 {
        Some(Aspect::Square)
    } else if w == 3072 && h == 4096 {
        Some(Aspect::Portrait)
    } else {
        None
    }
}

impl Aspect {
    /// The aspect of a master canvas, if it is one of the two accepted shapes.
    pub fn from_master_size(w: u32, h: u32) -> (a: Option<Aspect>)
        ensures
            a == aspect_of(w, h),
    {
        if w == MASTER_LONG_EDGE && h == MASTER_LONG_EDGE {
            Some(Aspect::Square)
        } else if w == 3072 && h == MASTER_LONG_EDGE {
            Some(Aspect::Portrait)
        } else {
            None
        }
    }
}

/// `d` is a master-stage error with this code and message and no coordinates.
pub open spec fn plain_error(d: Diagnostic, c: &'static str, msg: Seq<char>) -> bool {
    &&& d.severity == Severity::Error
    &&& d.code == c
    &&& d.stage == Stage::Master
    &&& d.message@ == msg
    &&& d.coords@.len() == 0
    &&& d.coord_total == 0
    &&& d.region is None
}

/// `d` is a master-stage error with this code and message, listing `pts`.
pub open spec fn located_error(d: Diagnostic, c: &'static str, msg: Seq<char>, pts: Seq<(u32, u32)>) -> bool {
    &&& d.severity == Severity::Error
    &&& d.code == c
    &&& d.stage == Stage::Master
    &&& d.message@ == msg
    &&& d.coords@ == capped(pts)
    &&& d.coord_total == pts.len()
    &&& d.region is None
}

/// `name W×H`.
pub open spec fn named_size(name: Seq<char>, w: u32, h: u32) -> Seq<char> {
    name + " "@ + dec(w as nat) + "×"@ + dec(h as nat)
}

/// The items of `parts` separated by `sep`.
pub open spec fn joined(parts: Seq<Seq<char>>, sep: Seq<char>) -> Seq<char>
    decreases parts.len(),
{
    if parts.len() == 0 {
        Seq::empty()
    } else if parts.len() == 1 {
        parts[0]
    } else {
        joined(parts.drop_last(), sep) + sep + parts.last()
    }
}

/// `named_size` of every image among the first `i` whose size is not `w`×`h`.
pub open spec fn odd_sizes(images: Seq<(&str, &Image)>, w: u32, h: u32, i: int) -> Seq<Seq<char>>
    decreases i,
{
    if i <= 0 {
        Seq::empty()
    } else {
        let img = images[i - 1].1;
        if img.width != w || img.height != h {
            odd_sizes(images, w, h, i - 1).push(named_size(images[i - 1].0@, img.width, img.height))
        } else {
            odd_sizes(images, w, h, i - 1)
        }
    }
}

pub open spec fn mismatch_message(first: Seq<char>, w: u32, h: u32, odd: Seq<Seq<char>>) -> Seq<char> {
    "四張圖尺寸不一致："@ + named_size(first, w, h) + "，但 "@ + joined(odd, "、"@) + "。必須從同一個 .clip 的不同圖層導出"@
}

pub open spec fn canvas_message(w: u32, h: u32) -> Seq<char> {
    "畫布 "@ + dec(w as nat) + "×"@ + dec(h as nat) + " 不合規：長邊必須是 4096，比例 1:1（4096×4096）或 3:4（3072×4096）"@
}

/// Appends `sep` and then `part` to `s`, unless `s` is the first part.
fn append_part(s: &mut String, part: &String, first: bool)
    ensures
        final(s)@ == (if first { old(s)@ + part@ } else { old(s)@ + "、"@ + part@ }),
{
    if !first {
        s.append("、");
    }
    s.append(part.as_str());
}

/// All images have the size of the first; the canvas is 4096 on its long edge,
/// square or 3:4.
pub fn geometry(images: &[(&str, &Image)]) -> (r: (Vec<Diagnostic>, Option<Aspect>))
    requires
        images@.len() > 0,
    ensures
        ({
            let w = images@[0].1.width;
            let h = images@[0].1.height;
            let odd = odd_sizes(images@, w, h, images@.len() as int);
            let m = if odd.len() > 0 { 1int } else { 0int };
            &&& r.1 == aspect_of(w, h)
            &&& r.0@.len() == m + (if aspect_of(w, h) is None { 1int } else { 0int })
            &&& odd.len() > 0 ==> plain_error(r.0@[0], code::SIZE_MISMATCH, mismatch_message(images@[0].0@, w, h, odd))
            &&& aspect_of(w, h) is None ==> plain_error(r.0@[m], code::CANVAS_SIZE, canvas_message(w, h))
        }),
{
    let mut out: Vec<Diagnostic> = Vec::new();
    let (first_name, first) = images[0];
    let (w, h) = (first.width, first.height);
    let mut list = String::new();
    let mut any = false;
    let mut i: usize = 0;
    while i < images.len()
        invariant
            i <= images@.len(),
            w == images@[0].1.width,
            h == images@[0].1.height,
            any == (odd_sizes(images@, w, h, i as int).len() > 0),
            list@ == joined(odd_sizes(images@, w, h, i as int), "、"@),
        decreases images@.len() - i,
    {
        let (name, img) = images[i];
        if img.width != w || img.height != h {
            let mut part = String::from_str(name);
            part.append(" ");
            push_decimal(&mut part, img.width as u64);
            part.append("×");
            push_decimal(&mut part, img.height as u64);
            append_part(&mut list, &part, !any);
            proof {
                let prev = odd_sizes(images@, w, h, i as int);
                let cur = odd_sizes(images@, w, h, i as int + 1);
                assert(cur.drop_last() =~= prev);
            }
            any = true;
        }
        i += 1;
    }
    if any {
        let mut msg = String::from_str("四張圖尺寸不一致：");
        msg.append(first_name);
        msg.append(" ");
        push_decimal(&mut msg, w as u64);
        msg.append("×");
        push_decimal(&mut msg, h as u64);
        msg.append("，但 ");
        msg.append(list.as_str());
        msg.append("。必須從同一個 .clip 的不同圖層導出");
        assert(msg@ =~= mismatch_message(first_name@, w, h, odd_sizes(images@, w, h, images@.len() as int)));
        out.push(Diagnostic::error(code::SIZE_MISMATCH, Stage::Master, msg));
    }
    let aspect = Aspect::from_master_size(w, h);
    if aspect.is_none() {
        let mut msg = String::from_str("畫布 ");
        push_decimal(&mut msg, w as u64);
        msg.append("×");
        push_decimal(&mut msg, h as u64);
        msg.append(" 不合規：長邊必須是 4096，比例 1:1（4096×4096）或 3:4（3072×4096）");
        out.push(Diagnostic::error(code::CANVAS_SIZE, Stage::Master, msg));
    }
    (out, aspect)
}

/// The images among the first `i` whose colour space is not sRGB.
pub open spec fn non_srgb<'a>(images: Seq<(&'a str, &'a Image)>, i: int) -> Seq<(&'a str, &'a Image)>
    decreases i,
{
    if i <= 0 {
        Seq::empty()
    } else if !images[i - 1].1.color_space.is_srgb {
        non_srgb(images, i - 1).push(images[i - 1])
    } else {
        non_srgb(images, i - 1)
    }
}

pub open spec fn color_space_message(name: Seq<char>, basis: Seq<char>) -> Seq<char> {
    name + " 的色彩描述檔不是 sRGB："@ + basis
}

/// One error per image whose colour profile is not sRGB, in image order.
pub fn color_space(images: &[(&str, &Image)]) -> (out: Vec<Diagnostic>)
    ensures
        ({
            let bad = non_srgb(images@, images@.len() as int);
            &&& out@.len() == bad.len()
            &&& forall|k: int| 0 <= k < bad.len() ==> plain_error(#[trigger] out@[k], code::COLOR_SPACE,
                color_space_message(bad[k].0@, bad[k].1.color_space.basis@))
        }),
{
    let mut out: Vec<Diagnostic> = Vec::new();
    let mut i: usize = 0;
    while i < images.len()
        invariant
            i <= images@.len(),
            out@.len() == non_srgb(images@, i as int).len(),
            forall|k: int| 0 <= k < out@.len() ==> plain_error(#[trigger] out@[k], code::COLOR_SPACE,
                color_space_message(non_srgb(images@, i as int)[k].0@, non_srgb(images@, i as int)[k].1.color_space.basis@)),
        decreases images@.len() - i,
    {
        let (name, img) = images[i];
        if !img.color_space.is_srgb {
            let mut msg = String::from_str(name);
            msg.append(" 的色彩描述檔不是 sRGB：");
            msg.append(img.color_space.basis.as_str());
            out.push(Diagnostic::error(code::COLOR_SPACE, Stage::Master, msg));
        }
        i += 1;
    }
    out
}

/// Pixels among the first `i` of `rgba` whose luma is below `SHADE_MIN_LUMA`.
pub open spec fn dark_pixels(rgba: Seq<u8>, i: int) -> Seq<u32>
    decreases i,
{
    if i <= 0 {
        Seq::empty()
    } else if luma_spec(px_rgb(rgba, i - 1)) < SHADE_MIN_LUMA {
        dark_pixels(rgba, i - 1).push((i - 1) as u32)
    } else {
        dark_pixels(rgba, i - 1)
    }
}

/// The smallest luma among the first `i` pixels that are too dark (255 if none).
pub open spec fn darkest(rgba: Seq<u8>, i: int) -> int
    decreases i,
{
    if i <= 0 {
        255
    } else {
        let y = luma_spec(px_rgb(rgba, i - 1));
        let d = darkest(rgba, i - 1);
        if y < SHADE_MIN_LUMA && y < d { y } else { d }
    }
}

pub open spec fn shade_message(n: nat, darkest: nat) -> Seq<char> {
    "shade 有 "@ + dec(n) + " 個像素的 luma < 60（最暗 "@ + dec(darkest) + "）。線稿或底色被畫進 shade 了，只留陰影本身"@
}

proof fn lemma_dark_pixels(rgba: Seq<u8>, i: int)
    requires
        0 <= i,
    ensures
        dark_pixels(rgba, i).len() <= i,
        0 <= darkest(rgba, i) <= 255,
    decreases i,
{
    if i > 0 {
        lemma_dark_pixels(rgba, i - 1);
    }
}

/// The luma of pixel `i` from its own red, green and blue bytes.
pub open spec fn pixel_luma(rgba: Seq<u8>, i: int) -> int {
    luma_spec([rgba[4 * i], rgba[4 * i + 1], rgba[4 * i + 2]]) as int
}

/// The shade check reports exactly the pixels whose own red, green and blue have
/// a luma below `SHADE_MIN_LUMA`, each once and in raster order; the darkest
/// luma it names is the least luma among them (255 when there are none).
pub proof fn law_shade_reports_exactly_the_dark_pixels(rgba: Seq<u8>, n: int)
    requires
        0 <= n <= u32::MAX,
    ensures
        forall|i: int| 0 <= i < n ==> (dark_pixels(rgba, n).contains(i as u32) <==> #[trigger] pixel_luma(rgba, i) < SHADE_MIN_LUMA),
        forall|k: int| 0 <= k < dark_pixels(rgba, n).len() ==> (#[trigger] dark_pixels(rgba, n)[k]) < n,
        forall|a: int, b: int| 0 <= a < b < dark_pixels(rgba, n).len() ==> (#[trigger] dark_pixels(rgba, n)[a]) < (#[trigger] dark_pixels(rgba, n)[b]),
        dark_pixels(rgba, n).len() == 0 ==> darkest(rgba, n) == 255,
        dark_pixels(rgba, n).len() > 0 ==> exists|i: int| 0 <= i < n && #[trigger] pixel_luma(rgba, i) < SHADE_MIN_LUMA
            && darkest(rgba, n) == pixel_luma(rgba, i),
        forall|i: int| 0 <= i < n && #[trigger] pixel_luma(rgba, i) < SHADE_MIN_LUMA ==> darkest(rgba, n) <= pixel_luma(rgba, i),
    decreases n,
{
    if n > 0 {
        law_shade_reports_exactly_the_dark_pixels(rgba, n - 1);
        let t = n - 1;
        let prev = dark_pixels(rgba, n - 1);
        let cur = dark_pixels(rgba, n);
        assert(px_rgb(rgba, t) == [rgba[4 * t], rgba[4 * t + 1], rgba[4 * t + 2]]);
        assert forall|i: int| 0 <= i < n implies (cur.contains(i as u32) <==> #[trigger] pixel_luma(rgba, i) < SHADE_MIN_LUMA) by {
            if i < t {
                if prev.contains(i as u32) {
                    let k = choose|k: int| 0 <= k < prev.len() && prev[k] == i as u32;
                    assert(cur[k] == i as u32);
                }
                if cur.contains(i as u32) {
                    let k = choose|k: int| 0 <= k < cur.len() && cur[k] == i as u32;
                    if k < prev.len() {
                        assert(prev[k] == i as u32);
                    } else {
                        assert(cur[k] == t as u32);
                    }
                }
            } else {
                if pixel_luma(rgba, i) < SHADE_MIN_LUMA {
                    assert(cur[cur.len() - 1] == t as u32);
                } else if cur.contains(i as u32) {
                    let k = choose|k: int| 0 <= k < cur.len() && cur[k] == i as u32;
                    assert(prev[k] < t);
                }
            }
        }
        if pixel_luma(rgba, t) < SHADE_MIN_LUMA && prev.len() > 0 {
            let i = choose|i: int| 0 <= i < n - 1 && #[trigger] pixel_luma(rgba, i) < SHADE_MIN_LUMA && darkest(rgba, n - 1) == pixel_luma(rgba, i);
            assert(pixel_luma(rgba, i) < SHADE_MIN_LUMA);
        }
        if pixel_luma(rgba, t) >= SHADE_MIN_LUMA && prev.len() > 0 {
            let i = choose|i: int| 0 <= i < n - 1 && #[trigger] pixel_luma(rgba, i) < SHADE_MIN_LUMA && darkest(rgba, n - 1) == pixel_luma(rgba, i);
            assert(pixel_luma(rgba, i) < SHADE_MIN_LUMA);
        }
        if pixel_luma(rgba, t) < SHADE_MIN_LUMA {
            assert(pixel_luma(rgba, t) < SHADE_MIN_LUMA);
        }
        assert forall|i: int| 0 <= i < n && #[trigger] pixel_luma(rgba, i) < SHADE_MIN_LUMA implies darkest(rgba, n) <= pixel_luma(rgba, i) by {
            if i < t {
                assert(darkest(rgba, n - 1) <= pixel_luma(rgba, i));
            }
        }
    }
}

/// `shade` composited onto white may hold no pixel with luma below
/// `SHADE_MIN_LUMA`; the check reports each such pixel and the darkest luma.
pub fn shade(shade_white: &[u8], width: u32) -> (out: Vec<Diagnostic>)
    requires
        shade_white@.len() / 4 <= u32::MAX,
        shade_white@.len() >= 4 ==> width > 0,
    ensures
        ({
            let n = shade_white@.len() / 4;
            let dark = dark_pixels(shade_white@, n as int);
            &&& out@.len() == (if dark.len() > 0 { 1int } else { 0int })
            &&& dark.len() > 0 ==> located_error(out@[0], code::SHADE_TOO_DARK,
                shade_message(dark.len(), darkest(shade_white@, n as int) as nat), coords_of(dark, width))
            &&& out@.len() > 0 <==> exists|i: int| 0 <= i < n && #[trigger] pixel_luma(shade_white@, i) < SHADE_MIN_LUMA
        }),
{
    let n = shade_white.len() / 4;
    let ghost rgba = shade_white@;
    let mut coords = Coords::master();
    let mut darkest_y: u8 = 255;
    let mut i: usize = 0;
    while i < n
        invariant
            rgba == shade_white@,
            n == rgba.len() / 4,
            rgba.len() == shade_white.len(),
            n <= u32::MAX,
            n >= 1 ==> width > 0,
            i <= n,
            coords.wf(),
            coords.factor() == 1,
            coords.points() == coords_of(dark_pixels(rgba, i as int), width),
            darkest_y == darkest(rgba, i as int),
        decreases n - i,
    {
        proof {
            lemma_dark_pixels(rgba, i as int);
            coords.lemma_wf();
        }
        assert(4 * i + 3 < rgba.len()) by (nonlinear_arith)
            requires
                i < n,
                n == rgba.len() / 4,
        ;
        let rgb = [shade_white[4 * i], shade_white[4 * i + 1], shade_white[4 * i + 2]];
        assert(rgb == px_rgb(rgba, i as int));
        let y = luma(rgb);
        if y < SHADE_MIN_LUMA {
            if y < darkest_y {
                darkest_y = y;
            }
            let p = i as u32;
            coords.push(p % width, p / width);
        }
        proof {
            let cur = dark_pixels(rgba, i as int + 1);
            assert(coords.points() =~= coords_of(cur, width));
        }
        i += 1;
    }
    proof {
        coords.lemma_wf();
        law_shade_reports_exactly_the_dark_pixels(rgba, n as int);
        let dark = dark_pixels(rgba, n as int);
        if dark.len() > 0 {
            let i = dark[0] as int;
            assert(dark.contains(i as u32));
            assert(pixel_luma(rgba, i) < SHADE_MIN_LUMA);
        }
        if exists|i: int| 0 <= i < n && #[trigger] pixel_luma(rgba, i) < SHADE_MIN_LUMA {
            let i = choose|i: int| 0 <= i < n && #[trigger] pixel_luma(rgba, i) < SHADE_MIN_LUMA;
            assert(dark.contains(i as u32));
        }
    }
    if coords.is_empty() {
        return Vec::new();
    }
    let mut msg = String::from_str("shade 有 ");
    push_decimal(&mut msg, coords.total() as u64);
    msg.append(" 個像素的 luma < 60（最暗 ");
    push_decimal(&mut msg, darkest_y as u64);
    msg.append("）。線稿或底色被畫進 shade 了，只留陰影本身");
    let mut out: Vec<Diagnostic> = Vec::new();
    out.push(Diagnostic::error(code::SHADE_TOO_DARK, Stage::Master, msg).with_coords(coords));
    out
}

/// Pixels among the first `i` whose alpha is not 255: pixels no colour claims.
pub open spec fn unassigned_pixels(rgba: Seq<u8>, i: int) -> Seq<u32>
    decreases i,
{
    if i <= 0 {
        Seq::empty()
    } else if rgba[4 * (i - 1) + 3] != 255 {
        unassigned_pixels(rgba, i - 1).push((i - 1) as u32)
    } else {
        unassigned_pixels(rgba, i - 1)
    }
}

pub open spec fn unassigned_message(n: nat) -> Seq<char> {
    dec(n) + " 個像素的 alpha < 255。flats 必須整張不透明、每個像素都有顏色（含線稿底下）。做洋紅縫隙檢查"@
}

pub open spec fn color_overflow_message(seen: nat) -> Seq<char> {
    "flats 的唯一色數超過 1024（掃到第 "@ + dec(seen) + " 個就停）。這通常代表 flats 被色彩管理轉換過，或抗鋸齒完全沒關"@
}

/// `#RRGGBB（areapx）`.
pub open spec fn sample_part(e: ([u8; 3], ColorStat)) -> Seq<char> {
    hex_color_spec(e.0) + "（"@ + dec(e.1.area as nat) + "px）"@
}

/// The first four tiny colours, for the message.
pub open spec fn sample_text(tiny: Seq<([u8; 3], ColorStat)>) -> Seq<char> {
    let k = if tiny.len() < 4 { tiny.len() as int } else { 4int };
    joined(Seq::new(k as nat, |j: int| sample_part(tiny[j])), "、"@)
}

pub open spec fn tiny_color_message(n: nat, sample: Seq<char>) -> Seq<char> {
    dec(n) + " 個顏色的總面積 < 100px（母帶），例如 "@ + sample + "。這是抗鋸齒沒關的判準——關掉抗鋸齒重新填色"@
}

pub open spec fn reserved_message(area: nat) -> Seq<char> {
    "flats 使用了保留色 #FF00FF（"@ + dec(area) + "px）。它是洋紅縫隙檢查的底色，請換一個顏色"@
}

/// First occurrence of each entry's colour.
pub open spec fn firsts(tiny: Seq<([u8; 3], ColorStat)>) -> Seq<(u32, u32)> {
    tiny.map_values(|e: ([u8; 3], ColorStat)| e.1.first)
}

/// `tiny` lists, by increasing colour, every colour of the image whose area is
/// below `MIN_COLOR_AREA`, each with its statistics.
pub open spec fn tiny_colors(tiny: Seq<([u8; 3], ColorStat)>, rgba: Seq<u8>, width: int) -> bool {
    let seen = seen_colors(rgba, (rgba.len() / 4) as int);
    &&& forall|k: int| 0 <= k < tiny.len() ==> seen.contains((#[trigger] tiny[k]).0)
        && describes(rgba, width, tiny[k].0, tiny[k].1) && tiny[k].1.area < MIN_COLOR_AREA
    &&& forall|c: [u8; 3]| #[trigger] seen.contains(c) && segment::color_count(rgba, c, (rgba.len() / 4) as int) < MIN_COLOR_AREA
        ==> exists|k: int| 0 <= k < tiny.len() && tiny[k].0 == c
    &&& forall|a: int, b: int| 0 <= a < b < tiny.len() ==> rgb_key((#[trigger] tiny[a]).0) < rgb_key((#[trigger] tiny[b]).0)
}

proof fn lemma_rgb_key_injective(a: [u8; 3], b: [u8; 3])
    requires
        rgb_key(a) == rgb_key(b),
    ensures
        a == b,
{
    assert(a =~= b);
}

proof fn lemma_unassigned(rgba: Seq<u8>, i: int)
    requires
        0 <= i,
    ensures
        unassigned_pixels(rgba, i).len() <= i,
    decreases i,
{
    if i > 0 {
        lemma_unassigned(rgba, i - 1);
    }
}

fn key_of(c: [u8; 3]) -> (k: u32)
    ensures
        k == rgb_key(c),
{
    c[0] as u32 * 65536 + c[1] as u32 * 256 + c[2] as u32
}

/// Sorts entries of distinct colours by increasing colour.
fn sort_by_color(v: Vec<([u8; 3], ColorStat)>) -> (r: Vec<([u8; 3], ColorStat)>)
    requires
        forall|a: int, b: int| 0 <= a < b < v@.len() ==> (#[trigger] v@[a]).0 != (#[trigger] v@[b]).0,
    ensures
        r@.len() == v@.len(),
        forall|k: int| 0 <= k < v@.len() ==> r@.contains(#[trigger] v@[k]),
        forall|k: int| 0 <= k < r@.len() ==> v@.contains(#[trigger] r@[k]),
        forall|a: int, b: int| 0 <= a < b < r@.len() ==> rgb_key((#[trigger] r@[a]).0) < rgb_key((#[trigger] r@[b]).0),
{
    let mut r: Vec<([u8; 3], ColorStat)> = Vec::new();
    let mut i: usize = 0;
    while i < v.len()
        invariant
            i <= v@.len(),
            r@.len() == i,
            forall|a: int, b: int| 0 <= a < b < v@.len() ==> (#[trigger] v@[a]).0 != (#[trigger] v@[b]).0,
            forall|k: int| 0 <= k < i ==> r@.contains(#[trigger] v@[k]),
            forall|k: int| 0 <= k < r@.len() ==> exists|j: int| 0 <= j < i && (#[trigger] r@[k]) == v@[j],
            forall|a: int, b: int| 0 <= a < b < r@.len() ==> rgb_key((#[trigger] r@[a]).0) < rgb_key((#[trigger] r@[b]).0),
        decreases v@.len() - i,
    {
        let e = v[i];
        let key = key_of(e.0);
        let ghost before = r@;
        let mut pos: usize = 0;
        while pos < r.len() && key_of(r[pos].0) < key
            invariant
                pos <= r@.len(),
                before == r@,
                key == rgb_key(e.0),
                forall|k: int| 0 <= k < pos ==> rgb_key((#[trigger] before[k]).0) < key,
            decreases r@.len() - pos,
        {
            pos += 1;
        }
        proof {
            assert forall|k: int| pos <= k < before.len() implies key < rgb_key((#[trigger] before[k]).0) by {
                let j = choose|j: int| 0 <= j < i && before[k] == v@[j];
                assert(v@[j].0 != v@[i as int].0);
                if rgb_key(before[k].0) == key {
                    lemma_rgb_key_injective(before[k].0, e.0);
                }
                if k > pos {
                    let j2 = choose|j2: int| 0 <= j2 < i && before[pos as int] == v@[j2];
                    assert(v@[j2].0 != v@[i as int].0);
                    if rgb_key(before[pos as int].0) == key {
                        lemma_rgb_key_injective(before[pos as int].0, e.0);
                    }
                    assert(rgb_key(before[pos as int].0) < rgb_key(before[k].0));
                }
            }
        }
        r.insert(pos, e);
        proof {
            assert(r@ =~= before.insert(pos as int, e));
            assert forall|k: int| 0 <= k < i + 1 implies r@.contains(#[trigger] v@[k]) by {
                if k < i {
                    let m = choose|m: int| 0 <= m < before.len() && before[m] == v@[k];
                    if m < pos {
                        assert(r@[m] == v@[k]);
                    } else {
                        assert(r@[m + 1] == v@[k]);
                    }
                } else {
                    assert(r@[pos as int] == v@[k]);
                }
            }
            assert forall|k: int| 0 <= k < r@.len() implies exists|j: int| 0 <= j < i + 1 && (#[trigger] r@[k]) == v@[j] by {
                if k < pos {
                    assert(r@[k] == before[k]);
                } else if k == pos {
                    assert(r@[k] == v@[i as int]);
                } else {
                    assert(r@[k] == before[k - 1]);
                }
            }
        }
        i += 1;
    }
    proof {
        assert forall|k: int| 0 <= k < r@.len() implies v@.contains(#[trigger] r@[k]) by {
            let j = choose|j: int| 0 <= j < v@.len() && r@[k] == v@[j];
        }
    }
    r
}

/// Unassigned pixels of `flats`: one error listing every pixel whose alpha is not 255.
fn unassigned_check(rgba_buf: &[u8], width: u32) -> (d: Option<Diagnostic>)
    requires
        rgba_buf@.len() / 4 <= u32::MAX,
        rgba_buf@.len() >= 4 ==> width > 0,
    ensures
        ({
            let gaps = unassigned_pixels(rgba_buf@, (rgba_buf@.len() / 4) as int);
            &&& (d is Some <==> gaps.len() > 0)
            &&& d matches Some(d) ==> located_error(d, code::UNASSIGNED_PIXEL, unassigned_message(gaps.len()), coords_of(gaps, width))
        }),
{
    let ghost rgba = rgba_buf@;
    let n = rgba_buf.len() / 4;
    let mut gaps = Coords::master();
    let mut i: usize = 0;
    while i < n
        invariant
            rgba == rgba_buf@,
            n == rgba.len() / 4,
            rgba.len() == rgba_buf.len(),
            n <= u32::MAX,
            n >= 1 ==> width > 0,
            i <= n,
            gaps.wf(),
            gaps.factor() == 1,
            gaps.points() == coords_of(unassigned_pixels(rgba, i as int), width),
        decreases n - i,
    {
        proof {
            lemma_unassigned(rgba, i as int);
            gaps.lemma_wf();
        }
        assert(4 * i + 3 < rgba.len()) by (nonlinear_arith)
            requires
                i < n,
                n == rgba.len() / 4,
        ;
        if rgba_buf[4 * i + 3] != 255 {
            let p = i as u32;
            gaps.push(p % width, p / width);
        }
        proof {
            assert(gaps.points() =~= coords_of(unassigned_pixels(rgba, i as int + 1), width));
        }
        i += 1;
    }
    proof {
        gaps.lemma_wf();
    }
    if gaps.is_empty() {
        return None;
    }
    let mut msg = decimal(gaps.total() as u64);
    msg.append(" 個像素的 alpha < 255。flats 必須整張不透明、每個像素都有顏色（含線稿底下）。做洋紅縫隙檢查");
    Some(Diagnostic::error(code::UNASSIGNED_PIXEL, Stage::Master, msg).with_coords(gaps))
}

/// The colours of `hist` whose area is below `MIN_COLOR_AREA`, by increasing colour.
fn tiny_entries(hist: &segment::ColorHistogram, Ghost(rgba): Ghost<Seq<u8>>, width: u32) -> (tiny: Vec<([u8; 3], ColorStat)>)
    requires
        ({
            let seen = seen_colors(rgba, (rgba.len() / 4) as int);
            &&& hist.wf()
            &&& hist.entries().len() == seen.len()
            &&& forall|j: int| 0 <= j < seen.len() ==> (#[trigger] hist.entries()[j]).0 == seen[j]
                && describes(rgba, width as int, seen[j], hist.entries()[j].1)
        }),
    ensures
        tiny_colors(tiny@, rgba, width as int),
{
    let ghost n = (rgba.len() / 4) as int;
    let ghost seen = seen_colors(rgba, n);
    proof {
        segment::lemma_seen_contains(rgba, n, RESERVED_COLOR);
    }
    let mut small: Vec<([u8; 3], ColorStat)> = Vec::new();
    let mut k: usize = 0;
    while k < hist.len()
        invariant
            k <= hist.entries().len(),
            hist.wf(),
            hist.entries().len() == seen.len(),
            seen.no_duplicates(),
            forall|j: int| 0 <= j < seen.len() ==> (#[trigger] hist.entries()[j]).0 == seen[j]
                && describes(rgba, width as int, seen[j], hist.entries()[j].1),
            forall|a: int| 0 <= a < small@.len() ==> exists|j: int| 0 <= j < k && (#[trigger] small@[a]) == hist.entries()[j],
            forall|j: int| 0 <= j < k && (#[trigger] hist.entries()[j]).1.area < MIN_COLOR_AREA ==> small@.contains(hist.entries()[j]),
            forall|a: int| 0 <= a < small@.len() ==> (#[trigger] small@[a]).1.area < MIN_COLOR_AREA,
            forall|a: int, b: int| 0 <= a < b < small@.len() ==> (#[trigger] small@[a]).0 != (#[trigger] small@[b]).0,
        decreases hist.entries().len() - k,
    {
        let e = hist.entry(k);
        if e.1.area < MIN_COLOR_AREA {
            proof {
                assert forall|a: int| 0 <= a < small@.len() implies (#[trigger] small@[a]).0 != e.0 by {
                    let j = choose|j: int| 0 <= j < k && small@[a] == hist.entries()[j];
                    assert(seen[j] != seen[k as int]);
                }
            }
            let ghost prev = small@;
            small.push(e);
            proof {
                assert forall|a: int| 0 <= a < small@.len() implies exists|j: int| 0 <= j < k + 1 && (#[trigger] small@[a]) == hist.entries()[j] by {
                    if a == small@.len() - 1 {
                        assert(small@[a] == hist.entries()[k as int]);
                    } else {
                        let j = choose|j: int| 0 <= j < k && small@[a] == hist.entries()[j];
                    }
                }
                assert forall|j: int| 0 <= j < k + 1 && (#[trigger] hist.entries()[j]).1.area < MIN_COLOR_AREA implies small@.contains(hist.entries()[j]) by {
                    if j == k {
                        assert(small@[small@.len() - 1] == hist.entries()[j]);
                    } else {
                        assert(prev.contains(hist.entries()[j]));
                        let m = choose|m: int| 0 <= m < prev.len() && prev[m] == hist.entries()[j];
                        assert(small@[m] == hist.entries()[j]);
                    }
                }
            }
        } else {
            proof {
                assert forall|a: int| 0 <= a < small@.len() implies exists|j: int| 0 <= j < k + 1 && (#[trigger] small@[a]) == hist.entries()[j] by {
                    let j = choose|j: int| 0 <= j < k && small@[a] == hist.entries()[j];
                }
            }
        }
        k += 1;
    }
    let tiny = sort_by_color(small);
    let ghost tv = tiny@;
    proof {
        assert forall|a: int| 0 <= a < tv.len() implies seen.contains((#[trigger] tv[a]).0)
            && describes(rgba, width as int, tv[a].0, tv[a].1) && tv[a].1.area < MIN_COLOR_AREA by {
            let m = choose|m: int| 0 <= m < small@.len() && small@[m] == tv[a];
            let j = choose|j: int| 0 <= j < hist.entries().len() && small@[m] == hist.entries()[j];
            assert(seen[j] == tv[a].0);
        }
        assert forall|c: [u8; 3]| #[trigger] seen.contains(c) && segment::color_count(rgba, c, n as int) < MIN_COLOR_AREA
            implies exists|a: int| 0 <= a < tv.len() && tv[a].0 == c by {
            let j = choose|j: int| 0 <= j < seen.len() && seen[j] == c;
            assert(hist.entries()[j].1.area < MIN_COLOR_AREA);
            assert(small@.contains(hist.entries()[j]));
            let m = choose|m: int| 0 <= m < small@.len() && small@[m] == hist.entries()[j];
            assert(tv.contains(small@[m]));
            let a = choose|a: int| 0 <= a < tv.len() && tv[a] == small@[m];
            assert(tv[a].0 == c);
        }
        assert(tiny_colors(tv, rgba, width as int));
    }
    tiny
}

/// The per-colour area rule and the reserved colour, over a completed histogram.
fn area_checks(hist: &segment::ColorHistogram, Ghost(rgba): Ghost<Seq<u8>>, width: u32) -> (out: Vec<Diagnostic>)
    requires
        ({
            let seen = seen_colors(rgba, (rgba.len() / 4) as int);
            &&& hist.wf()
            &&& hist.entries().len() == seen.len()
            &&& forall|j: int| 0 <= j < seen.len() ==> (#[trigger] hist.entries()[j]).0 == seen[j]
                && describes(rgba, width as int, seen[j], hist.entries()[j].1)
        }),
    ensures
        ({
            let seen = seen_colors(rgba, (rgba.len() / 4) as int);
            exists|tiny: Seq<([u8; 3], ColorStat)>| #[trigger] tiny_colors(tiny, rgba, width as int) && {
                let t = if tiny.len() > 0 { 1int } else { 0int };
                let has_reserved = seen.contains(RESERVED_COLOR);
                &&& out@.len() == t + (if has_reserved { 1int } else { 0int })
                &&& tiny.len() > 0 ==> located_error(out@[0], code::TINY_COLOR_AREA,
                    tiny_color_message(tiny.len(), sample_text(tiny)), firsts(tiny))
                &&& has_reserved ==> exists|st: ColorStat| #[trigger] describes(rgba, width as int, RESERVED_COLOR, st)
                    && located_error(out@[t], code::RESERVED_COLOR, reserved_message(st.area as nat), seq![st.first])
            }
        }),
{
    let ghost n = (rgba.len() / 4) as int;
    let ghost seen = seen_colors(rgba, n);
    proof {
        segment::lemma_seen_contains(rgba, n, RESERVED_COLOR);
    }
    let mut out: Vec<Diagnostic> = Vec::new();
    let ghost g = 0int;
    let tiny = tiny_entries(hist, Ghost(rgba), width);
    let ghost tv = tiny@;
    if tiny.len() > 0 {
        let mut coords = Coords::master();
        let mut k: usize = 0;
        while k < tiny.len()
            invariant
                tv == tiny@,
                k <= tv.len(),
                coords.wf(),
                coords.factor() == 1,
                coords.pushed() == k,
                coords.points() =~= firsts(tv.take(k as int)),
            decreases tv.len() - k,
        {
            proof {
                coords.lemma_wf();
                assert(tv.take(k as int + 1) =~= tv.take(k as int).push(tv[k as int]));
            }
            coords.push(tiny[k].1.first.0, tiny[k].1.first.1);
            k += 1;
        }
        proof {
            assert(tv.take(tv.len() as int) =~= tv);
        }
        let mut sample = String::new();
        let shown: usize = if tiny.len() < 4 { tiny.len() } else { 4 };
        let ghost parts = Seq::new(shown as nat, |j: int| sample_part(tv[j]));
        let mut k: usize = 0;
        while k < shown
            invariant
                tv == tiny@,
                shown <= tv.len(),
                parts == Seq::new(shown as nat, |j: int| sample_part(tv[j])),
                k <= shown,
                sample@ == joined(parts.take(k as int), "、"@),
            decreases shown - k,
        {
            let mut part = hex_color(tiny[k].0);
            part.append("（");
            push_decimal(&mut part, tiny[k].1.area as u64);
            part.append("px）");
            append_part(&mut sample, &part, k == 0);
            proof {
                assert(parts.take(k as int + 1).drop_last() =~= parts.take(k as int));
                assert(part@ =~= sample_part(tv[k as int]));
            }
            k += 1;
        }
        proof {
            assert(parts.take(shown as int) =~= parts);
        }
        let mut msg = decimal(tiny.len() as u64);
        msg.append(" 個顏色的總面積 < 100px（母帶），例如 ");
        msg.append(sample.as_str());
        msg.append("。這是抗鋸齒沒關的判準——關掉抗鋸齒重新填色");
        assert(msg@ =~= tiny_color_message(tv.len(), sample_text(tv)));
        out.push(Diagnostic::error(code::TINY_COLOR_AREA, Stage::Master, msg).with_coords(coords));
        assert(located_error(out@[g as int], code::TINY_COLOR_AREA, tiny_color_message(tv.len(), sample_text(tv)), firsts(tv)));
    }
    if let Some(stat) = hist.get(RESERVED_COLOR) {
        let mut coords = Coords::master();
        coords.push(stat.first.0, stat.first.1);
        let mut msg = String::from_str("flats 使用了保留色 #FF00FF（");
        push_decimal(&mut msg, stat.area as u64);
        msg.append("px）。它是洋紅縫隙檢查的底色，請換一個顏色");
        let ghost at = out@.len();
        out.push(Diagnostic::error(code::RESERVED_COLOR, Stage::Master, msg).with_coords(coords));
        proof {
            assert(coords.points() =~= seq![stat.first]);
            assert(located_error(out@[at as int], code::RESERVED_COLOR, reserved_message(stat.area as nat), seq![stat.first]));
            let j = choose|j: int| 0 <= j < hist.entries().len() && hist.entries()[j].0 == RESERVED_COLOR && hist.entries()[j].1 == stat;
            assert(describes(rgba, width as int, RESERVED_COLOR, stat));
            assert(seen.contains(RESERVED_COLOR)) by {
                assert(seen[j] == RESERVED_COLOR);
            }
        }
    } else {
        proof {
            if seen.contains(RESERVED_COLOR) {
                let j = choose|j: int| 0 <= j < seen.len() && seen[j] == RESERVED_COLOR;
                assert(hist.entries()[j].0 == RESERVED_COLOR);
            }
        }
    }
    proof {
        let t = if tv.len() > 0 { 1int } else { 0int };
        assert(out@.len() == g + t + (if seen.contains(RESERVED_COLOR) { 1int } else { 0int }));
        if tv.len() > 0 {
            assert(located_error(out@[g as int], code::TINY_COLOR_AREA, tiny_color_message(tv.len(), sample_text(tv)), firsts(tv)));
        }
    }
    out
}

/// The four `flats` checks: unassigned pixels, the unique-colour quick reject,
/// the per-colour area rule, and the reserved colour. Returns the diagnostics and
/// how many distinct colours there are.
pub fn flats(img: &Image) -> (r: (Vec<Diagnostic>, UniqueColors))
    requires
        img.rgba@.len() / 4 <= u32::MAX,
        img.rgba@.len() >= 4 ==> img.width > 0,
    ensures
        ({
            let rgba = img.rgba@;
            let w = img.width;
            let n = (rgba.len() / 4) as int;
            let gaps = unassigned_pixels(rgba, n);
            let g = if gaps.len() > 0 { 1int } else { 0int };
            let seen = seen_colors(rgba, n);
            &&& gaps.len() > 0 ==> located_error(r.0@[0], code::UNASSIGNED_PIXEL, unassigned_message(gaps.len()), coords_of(gaps, w))
            &&& seen.len() > MAX_UNIQUE_COLORS ==> {
                &&& r.0@.len() == g + 1
                &&& plain_error(r.0@[g], code::UNIQUE_COLOR_OVERFLOW, color_overflow_message((MAX_UNIQUE_COLORS + 1) as nat))
                &&& r.1 == UniqueColors { count: (MAX_UNIQUE_COLORS + 1) as usize, exact: false }
            }
            &&& seen.len() <= MAX_UNIQUE_COLORS ==> {
                &&& r.1 == UniqueColors { count: seen.len() as usize, exact: true }
                &&& exists|tiny: Seq<([u8; 3], ColorStat)>| #[trigger] tiny_colors(tiny, rgba, w as int) && {
                    let t = if tiny.len() > 0 { 1int } else { 0int };
                    let has_reserved = seen.contains(RESERVED_COLOR);
                    &&& r.0@.len() == g + t + (if has_reserved { 1int } else { 0int })
                    &&& tiny.len() > 0 ==> located_error(r.0@[g], code::TINY_COLOR_AREA,
                        tiny_color_message(tiny.len(), sample_text(tiny)), firsts(tiny))
                    &&& has_reserved ==> exists|st: ColorStat| #[trigger] describes(rgba, w as int, RESERVED_COLOR, st)
                        && located_error(r.0@[g + t], code::RESERVED_COLOR, reserved_message(st.area as nat), seq![st.first])
                }
            }
        }),
{
    let mut out: Vec<Diagnostic> = Vec::new();
    if let Some(d) = unassigned_check(&img.rgba, img.width) {
        out.push(d);
    }
    match segment::color_histogram(&img.rgba, img.width) {
        Err(seen) => {
            let mut msg = String::from_str("flats 的唯一色數超過 1024（掃到第 ");
            push_decimal(&mut msg, seen as u64);
            msg.append(" 個就停）。這通常代表 flats 被色彩管理轉換過，或抗鋸齒完全沒關");
            out.push(Diagnostic::error(code::UNIQUE_COLOR_OVERFLOW, Stage::Master, msg));
            (out, UniqueColors { count: seen, exact: false })
        },
        Ok(hist) => {
            let mut more = area_checks(&hist, Ghost(img.rgba@), img.width);
            out.append(&mut more);
            let count = hist.len();
            (out, UniqueColors { count, exact: true })
        },
    }
}

} // verus!
