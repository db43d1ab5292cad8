//! Diagnostics: what a check found, where, and how bad it is, and the text
//! they are reported in.
use vstd::prelude::*;
use crate::text::dec;
use crate::text::push_decimal;
use crate::xtask::names::NameOrder;
use crate::xtask::names::compare_names;

verus! {

/// A fully broken image must not produce millions of coordinates.
pub const MAX_COORDS: usize = 16;

#[derive(Debug, Clone, Copy, PartialEq, Eq, Structural)]
pub enum Severity {
    Error,
    Warning,
}

#[derive(Debug, Clone, Copy, PartialEq, Eq, Structural)]
pub enum Stage {
    Master,
    Output,
}

#[derive(Debug, Clone)]
pub struct Diagnostic {
    pub severity: Severity,
    pub code: &'static str,
    pub stage: Stage,
    pub message: String,
    /// Always in master coordinates; output-stage findings are already scaled by 2.
    pub coords: Vec<(u32, u32)>,
    /// Number of coordinates reported; `coords` keeps only the first `MAX_COORDS`.
    pub coord_total: usize,
    pub region: Option<u32>,
}

impl Diagnostic {
    pub fn error(code: &'static str, stage: Stage, message: String) -> (d: Self)
        ensures
            d.severity == Severity::Error,
            d.code == code,
            d.stage == stage,
            d.message@ == message@,
            d.coords@ == Seq::<(u32, u32)>::empty(),
            d.coord_total == 0,
            d.region is None,
    {
        Self::new(Severity::Error, code, stage, message)
    }

    pub fn warning(code: &'static str, stage: Stage, message: String) -> (d: Self)
        ensures
            d.severity == Severity::Warning,
            d.code == code,
            d.stage == stage,
            d.message@ == message@,
            d.coords@ == Seq::<(u32, u32)>::empty(),
            d.coord_total == 0,
            d.region is None,
    {
        Self::new(Severity::Warning, code, stage, message)
    }

    pub fn new(severity: Severity, code: &'static str, stage: Stage, message: String) -> (d: Self)
        ensures
            d.severity == severity,
            d.code == code,
            d.stage == stage,
            d.message@ == message@,
            d.coords@ == Seq::<(u32, u32)>::empty(),
            d.coord_total == 0,
            d.region is None,
    {
        Diagnostic {
            severity,
            code,
            stage,
            message,
            coords: Vec::new(),
            coord_total: 0,
            region: None,
        }
    }

    /// Attaches the collected coordinates (capped) and their total.
    pub fn with_coords(self, coords: Coords) -> (d: Self)
        requires
            coords.wf(),
        ensures
            d.severity == self.severity,
            d.code == self.code,
            d.stage == self.stage,
            d.message@ == self.message@,
            d.region == self.region,
            d.coords@ == coords.kept(),
            d.coords@ == capped(coords.points()),
            d.coord_total == coords.pushed(),
            d.coord_total == coords.points().len(),
            d.coords@.len() == (if coords.pushed() < MAX_COORDS { coords.pushed() } else { MAX_COORDS as nat }),
    {
        let mut d = self;
        d.coord_total = coords.total;
        d.coords = coords.kept;
        d
    }

    pub fn with_region(self, region: u32) -> (d: Self)
        ensures
            d.severity == self.severity,
            d.code == self.code,
            d.stage == self.stage,
            d.message@ == self.message@,
            d.coords@ == self.coords@,
            d.coord_total == self.coord_total,
            d.region == Some(region),
    {
        let mut d = self;
        d.region = Some(region);
        d
    }
}

/// Distinct colours of `flats`: exact when the histogram was completed, otherwise
/// the count at which the scan gave up (a lower bound).
#[derive(Debug, Clone, Copy, PartialEq, Eq, Structural)]
pub struct UniqueColors {
    pub count: usize,
    pub exact: bool,
}

/// Collects coordinates, keeping at most `MAX_COORDS` of them and scaling each
/// by the collector's factor (1 for master, 2 for output resolution).
#[derive(Clone)]
pub struct Coords {
    kept: Vec<(u32, u32)>,
    total: usize,
    scale: u32,
    /// Every point pushed so far, already scaled.
    all: Ghost<Seq<(u32, u32)>>,
}

/// The first `MAX_COORDS` entries of `pts` (all of them when there are fewer).
pub open spec fn capped(pts: Seq<(u32, u32)>) -> Seq<(u32, u32)> {
    if pts.len() <= MAX_COORDS { pts } else { pts.take(MAX_COORDS as int) }
}

/// Scales every point of `pts` by `scale`.
pub open spec fn scaled(pts: Seq<(u32, u32)>, scale: u32) -> Seq<(int, int)> {
    pts.map_values(|p: (u32, u32)| (p.0 * scale, p.1 * scale))
}

impl Coords {
    /// The coordinates kept, already scaled.
    pub closed spec fn kept(self) -> Seq<(u32, u32)> {
        self.kept@
    }

    /// Every point pushed so far, already scaled.
    pub closed spec fn points(self) -> Seq<(u32, u32)> {
        self.all@
    }

    /// How many coordinates were pushed.
    pub closed spec fn pushed(self) -> nat {
        self.total as nat
    }

    /// The factor applied to every pushed coordinate.
    pub closed spec fn factor(self) -> u32 {
        self.scale
    }

    /// Well-formedness: `kept` holds the first `MAX_COORDS` points and the factor is 1 or 2.
    pub closed spec fn wf(self) -> bool {
        &&& self.kept@ == capped(self.all@)
        &&& self.total == self.all@.len()
        &&& self.kept@.len() <= MAX_COORDS
        &&& self.kept@.len() == (if self.total < MAX_COORDS { self.total as nat } else { MAX_COORDS as nat })
        &&& (self.scale == 1 || self.scale == 2)
    }

    /// What well-formedness says about the kept points.
    pub proof fn lemma_wf(self)
        requires
            self.wf(),
        ensures
            self.kept().len() == (if self.pushed() < MAX_COORDS { self.pushed() } else { MAX_COORDS as nat }),
            self.factor() == 1 || self.factor() == 2,
            self.kept() == capped(self.points()),
            self.pushed() == self.points().len(),
    {
    }

    /// Master-resolution collector: coordinates are kept as pushed.
    pub fn master() -> (c: Self)
        ensures
            c.wf(),
            c.points().len() == 0,
            c.kept().len() == 0,
            c.pushed() == 0,
            c.factor() == 1,
    {
        Coords { kept: Vec::new(), total: 0, scale: 1, all: Ghost(Seq::empty()) }
    }

    /// Output-resolution collector: every push is scaled by 2 back to master coordinates.
    pub fn output() -> (c: Self)
        ensures
            c.wf(),
            c.points().len() == 0,
            c.kept().len() == 0,
            c.pushed() == 0,
            c.factor() == 2,
    {
        Coords { kept: Vec::new(), total: 0, scale: 2, all: Ghost(Seq::empty()) }
    }

    pub fn push(&mut self, x: u32, y: u32)
        requires
            old(self).wf(),
            old(self).pushed() < usize::MAX,
            old(self).kept().len() < MAX_COORDS ==> x * old(self).factor() <= u32::MAX && y * old(self).factor() <= u32::MAX,
        ensures
            final(self).pushed() == old(self).pushed() + 1,
            final(self).factor() == old(self).factor(),
            final(self).kept() == if old(self).kept().len() < MAX_COORDS {
                old(self).kept().push(((x * old(self).factor()) as u32, (y * old(self).factor()) as u32))
            } else {
                old(self).kept()
            },
            final(self).wf(),
            final(self).points() == old(self).points().push(((x * old(self).factor()) as u32, (y * old(self).factor()) as u32)),
    {
        self.total = self.total + 1;
        let ghost p0 = ((x * self.scale) as u32, (y * self.scale) as u32);
        let ghost old_all = self.all@;
        self.all = Ghost(self.all@.push(p0));
        proof {
            if old_all.len() >= MAX_COORDS {
                assert(self.all@.take(MAX_COORDS as int) =~= old_all.take(MAX_COORDS as int));
            }
        }
        if self.kept.len() < MAX_COORDS {
            let p = (x * self.scale, y * self.scale);
            self.kept.push(p);
            assert(self.kept@ =~= capped(self.all@));
        } else {
            assert(old_all.take(MAX_COORDS as int) =~= capped(old_all));
            assert(self.kept@ =~= capped(self.all@));
        }
    }

    pub fn is_empty(&self) -> (b: bool)
        ensures
            b == (self.pushed() == 0),
    {
        self.total == 0
    }

    pub fn total(&self) -> (n: usize)
        ensures
            n == self.pushed(),
    {
        self.total
    }
}

/// The packaging result of an accepted asset.
#[derive(Debug, Clone)]
pub struct Summary {
    pub id: String,
    pub canvas_size: [u32; 2],
    pub aspect: &'static str,
    pub region_count: u32,
    pub difficulty: &'static str,
    pub category: &'static str,
    pub has_shade: bool,
    pub content_hash: String,
    pub output: String,
}

/// How many diagnostics have severity `severity`.
pub open spec fn count_spec(ds: Seq<Diagnostic>, severity: Severity) -> nat
    decreases ds.len(),
{
    if ds.len() == 0 {
        0
    } else {
        count_spec(ds.drop_last(), severity) + if ds.last().severity == severity { 1nat } else { 0nat }
    }
}

proof fn lemma_count_bound(ds: Seq<Diagnostic>, severity: Severity)
    ensures
        count_spec(ds, severity) <= ds.len(),
    decreases ds.len(),
{
    if ds.len() > 0 {
        lemma_count_bound(ds.drop_last(), severity);
    }
}

/// Counts the diagnostics of one severity.
pub fn count(ds: &[Diagnostic], severity: Severity) -> (n: usize)
    ensures
        n == count_spec(ds@, severity),
{
    let mut n: usize = 0;
    let mut i: usize = 0;
    while i < ds.len()
        invariant
            i <= ds.len(),
            n == count_spec(ds@.take(i as int), severity),
        decreases ds.len() - i,
    {
        assert(ds@.take(i + 1).drop_last() =~= ds@.take(i as int));
        proof {
            lemma_count_bound(ds@.take(i + 1), severity);
        }
        if ds[i].severity == severity {
            n += 1;
        }
        i += 1;
    }
    assert(ds@.take(ds.len() as int) =~= ds@);
    n
}

/// Whether any diagnostic is an error.
pub fn has_error(ds: &[Diagnostic]) -> (b: bool)
    ensures
        b == exists|i: int| 0 <= i < ds@.len() && (#[trigger] ds@[i]).severity == Severity::Error,
{
    let mut i: usize = 0;
    while i < ds.len()
        invariant
            i <= ds.len(),
            forall|k: int| 0 <= k < i ==> (#[trigger] ds@[k]).severity != Severity::Error,
        decreases ds.len() - i,
    {
        if ds[i].severity == Severity::Error {
            return true;
        }
        i += 1;
    }
    false
}

/// The first diagnostic with code `code`, if any.
pub fn find<'a>(ds: &'a [Diagnostic], code: &str) -> (r: Option<&'a Diagnostic>)
    ensures
        match r {
            Some(d) => exists|i: int| 0 <= i < ds@.len() && ds@[i] == *d && d.code@ == code@ && forall|j: int| 0 <= j < i ==> (#[trigger] ds@[j]).code@ != code@,
            None => forall|i: int| 0 <= i < ds@.len() ==> (#[trigger] ds@[i]).code@ != code@,
        },
{
    let mut i: usize = 0;
    while i < ds.len()
        invariant
            i <= ds.len(),
            forall|k: int| 0 <= k < i ==> (#[trigger] ds@[k]).code@ != code@,
        decreases ds.len() - i,
    {
        if compare_names(ds[i].code, code) == NameOrder::Equal {
            return Some(&ds[i]);
        }
        i += 1;
    }
    None
}

/// The mark of a severity.
pub open spec fn mark_spec(s: Severity) -> Seq<char> {
    match s {
        Severity::Error => "✗"@,
        Severity::Warning => "⚠"@,
    }
}

/// The name of a stage as the artist reads it.
pub open spec fn stage_spec(s: Stage) -> Seq<char> {
    match s {
        Stage::Master => "母帶"@,
        Stage::Output => "輸出"@,
    }
}

/// Where coordinates come from, as the artist reads it.
pub open spec fn coords_note_spec(s: Stage) -> Seq<char> {
    match s {
        Stage::Master => "（母帶座標）"@,
        Stage::Output => "（母帶座標，於輸出解析度發現）"@,
    }
}

/// `(x, y)`.
pub open spec fn point_spec(p: (u32, u32)) -> Seq<char> {
    "("@ + dec(p.0 as nat) + ", "@ + dec(p.1 as nat) + ")"@
}

/// The points, separated by single spaces.
pub open spec fn points_spec(ps: Seq<(u32, u32)>) -> Seq<char>
    decreases ps.len(),
{
    if ps.len() == 0 {
        Seq::empty()
    } else if ps.len() == 1 {
        point_spec(ps[0])
    } else {
        points_spec(ps.drop_last()) + " "@ + point_spec(ps.last())
    }
}

/// The first line of a diagnostic: mark, code, stage and message.
pub open spec fn head_spec(d: Diagnostic) -> Seq<char> {
    "  "@ + mark_spec(d.severity) + " ["@ + d.code@ + "] "@ + stage_spec(d.stage) + "："@ + d.message@ + "\n"@
}

/// The region line of a diagnostic, if it names a region.
pub open spec fn region_spec(d: Diagnostic) -> Seq<char> {
    match d.region {
        Some(r) => "      區域 #"@ + dec(r as nat) + "\n"@,
        None => Seq::empty(),
    }
}

/// How many more coordinates were found than are listed.
pub open spec fn more_spec(d: Diagnostic) -> Seq<char> {
    if d.coord_total > d.coords@.len() {
        "，另有 "@ + dec((d.coord_total - d.coords@.len()) as nat) + " 處"@
    } else {
        Seq::empty()
    }
}

/// The coordinate line of a diagnostic, if it has coordinates.
pub open spec fn coords_spec(d: Diagnostic) -> Seq<char> {
    if d.coords@.len() == 0 {
        Seq::empty()
    } else {
        "      "@ + coords_note_spec(d.stage) + " "@ + points_spec(d.coords@) + more_spec(d) + "\n"@
    }
}

/// The lines that report one diagnostic: the finding, its region if any, and
/// its coordinates if any (with how many more were found than are listed).
pub open spec fn diagnostic_text_spec(d: Diagnostic) -> Seq<char> {
    head_spec(d) + region_spec(d) + coords_spec(d)
}

fn mark(s: Severity) -> (t: &'static str)
    ensures
        t@ == mark_spec(s),
{
    match s {
        Severity::Error => "✗",
        Severity::Warning => "⚠",
    }
}

fn stage_name(s: Stage) -> (t: &'static str)
    ensures
        t@ == stage_spec(s),
{
    match s {
        Stage::Master => "母帶",
        Stage::Output => "輸出",
    }
}

fn coords_note(s: Stage) -> (t: &'static str)
    ensures
        t@ == coords_note_spec(s),
{
    match s {
        Stage::Master => "（母帶座標）",
        Stage::Output => "（母帶座標，於輸出解析度發現）",
    }
}

fn push_point(s: &mut String, p: (u32, u32))
    ensures
        final(s)@ == old(s)@ + point_spec(p),
{
    s.append("(");
    push_decimal(s, p.0 as u64);
    s.append(", ");
    push_decimal(s, p.1 as u64);
    s.append(")");
}

fn push_points(t: &mut String, ps: &Vec<(u32, u32)>)
    ensures
        final(t)@ == old(t)@ + points_spec(ps@),
{
    let ghost pre = t@;
    let mut i: usize = 0;
    assert(points_spec(ps@.take(0)) =~= Seq::<char>::empty());
    assert(t@ =~= pre + points_spec(ps@.take(0)));
    while i < ps.len()
        invariant
            i <= ps@.len(),
            t@ == pre + points_spec(ps@.take(i as int)),
        decreases ps@.len() - i,
    {
        assert(ps@.take(i + 1).drop_last() =~= ps@.take(i as int));
        if i > 0 {
            t.append(" ");
        }
        push_point(t, ps[i]);
        proof {
            if i == 0 {
                assert(points_spec(ps@.take(1)) == point_spec(ps@[0]));
            }
        }
        assert(t@ =~= pre + points_spec(ps@.take(i + 1)));
        i += 1;
    }
    assert(ps@.take(ps@.len() as int) =~= ps@);
}

fn head_text(d: &Diagnostic) -> (t: String)
    ensures
        t@ == head_spec(*d),
{
    let mut t = String::new();
    t.append("  ");
    t.append(mark(d.severity));
    t.append(" [");
    t.append(d.code);
    t.append("] ");
    t.append(stage_name(d.stage));
    t.append("：");
    t.append(d.message.as_str());
    t.append("\n");
    assert(t@ =~= head_spec(*d));
    t
}

fn push_region(t: &mut String, d: &Diagnostic)
    ensures
        final(t)@ == old(t)@ + region_spec(*d),
{
    let ghost pre = t@;
    if let Some(r) = d.region {
        t.append("      區域 #");
        push_decimal(t, r as u64);
        t.append("\n");
    }
    assert(t@ =~= pre + region_spec(*d));
}

fn push_coords(t: &mut String, d: &Diagnostic)
    ensures
        final(t)@ == old(t)@ + coords_spec(*d),
{
    let ghost pre = t@;
    if d.coords.len() > 0 {
        t.append("      ");
        t.append(coords_note(d.stage));
        t.append(" ");
        push_points(t, &d.coords);
        let ghost mid = t@;
        if d.coord_total > d.coords.len() {
            t.append("，另有 ");
            push_decimal(t, (d.coord_total - d.coords.len()) as u64);
            t.append(" 處");
        }
        assert(t@ =~= mid + more_spec(*d));
        t.append("\n");
    }
    assert(t@ =~= pre + coords_spec(*d));
}

/// The text of one diagnostic.
pub fn diagnostic_text(d: &Diagnostic) -> (t: String)
    ensures
        t@ == diagnostic_text_spec(*d),
{
    let mut t = head_text(d);
    push_region(&mut t, d);
    push_coords(&mut t, d);
    assert(t@ =~= diagnostic_text_spec(*d));
    t
}

/// The lines that report a successful packaging.
pub open spec fn summary_text_spec(s: Summary) -> Seq<char> {
    "  ✓ "@ + dec(s.canvas_size[0] as nat) + "×"@ + dec(s.canvas_size[1] as nat) + " "@ + s.aspect@ + " ／ "@
        + dec(s.region_count as nat) + " 區 ／ "@ + s.difficulty@ + " ／ shade "@ + (if s.has_shade { "有"@ } else { "無"@ })
        + "\n"@ + "  → "@ + s.output@ + "\n"@ + "  "@ + s.content_hash@ + "\n"@
}

/// The text of a packaging summary.
pub fn summary_text(s: &Summary) -> (t: String)
    ensures
        t@ == summary_text_spec(*s),
{
    let mut t = String::new();
    t.append("  ✓ ");
    push_decimal(&mut t, s.canvas_size[0] as u64);
    t.append("×");
    push_decimal(&mut t, s.canvas_size[1] as u64);
    t.append(" ");
    t.append(s.aspect);
    t.append(" ／ ");
    push_decimal(&mut t, s.region_count as u64);
    t.append(" 區 ／ ");
    t.append(s.difficulty);
    t.append(" ／ shade ");
    if s.has_shade {
        t.append("有");
    } else {
        t.append("無");
    }
    t.append("\n");
    t.append("  → ");
    t.append(s.output.as_str());
    t.append("\n");
    t.append("  ");
    t.append(s.content_hash.as_str());
    t.append("\n");
    assert(t@ =~= summary_text_spec(*s));
    t
}

/// The texts of the diagnostics, in order.
pub open spec fn diagnostics_text_spec(ds: Seq<Diagnostic>) -> Seq<char>
    decreases ds.len(),
{
    if ds.len() == 0 {
        Seq::empty()
    } else {
        diagnostics_text_spec(ds.drop_last()) + diagnostic_text_spec(ds.last())
    }
}

/// The seed statistics line: how many seeds, and the line-pixel share, given as
/// its percentage already formatted to two decimals.
pub open spec fn seed_line_spec(seeds: nat, percent: Seq<char>) -> Seq<char> {
    "  色標 "@ + dec(seeds) + " 個／線像素 "@ + percent + "%\n"@
}

/// The seed statistics line of a report. The percentage is a float, so the
/// caller formats it (`{:.2}` of the ratio times 100) and hands in the text.
pub fn seed_line(seeds: u64, percent: &str) -> (s: String)
    ensures
        s@ == seed_line_spec(seeds as nat, percent@),
{
    let mut s = String::from_str("  色標 ");
    push_decimal(&mut s, seeds);
    s.append(" 個／線像素 ");
    s.append(percent);
    s.append("%\n");
    s
}

/// The whole report as text: a header naming the asset and its source, every
/// diagnostic, the seed line if there is one, the summary if the asset was
/// packaged, and the numbers of errors and warnings.
pub open spec fn report_text_spec(
    id: Seq<char>,
    source: Seq<char>,
    ds: Seq<Diagnostic>,
    seed_line: Option<Seq<char>>,
    summary: Option<Summary>,
) -> Seq<char> {
    "baker："@ + id + " （"@ + source + "）\n"@ + diagnostics_text_spec(ds) + (match seed_line {
        Some(l) => l,
        None => Seq::empty(),
    }) + (match summary {
        Some(s) => summary_text_spec(s),
        None => Seq::empty(),
    }) + "  "@ + dec(count_spec(ds, Severity::Error)) + " 個錯誤、"@ + dec(count_spec(ds, Severity::Warning))
        + " 個警告\n"@
}

/// Renders a report. The seed line is formatted by the caller, since it holds a
/// ratio.
pub fn report_text(
    id: &str,
    source: &str,
    ds: &[Diagnostic],
    seed_line: Option<&str>,
    summary: Option<&Summary>,
) -> (t: String)
    ensures
        t@ == report_text_spec(
            id@,
            source@,
            ds@,
            match seed_line {
                Some(l) => Some(l@),
                None => None,
            },
            match summary {
                Some(s) => Some(*s),
                None => None,
            },
        ),
{
    let mut t = String::new();
    t.append("baker：");
    t.append(id);
    t.append(" （");
    t.append(source);
    t.append("）\n");
    let ghost head = t@;
    let mut i: usize = 0;
    while i < ds.len()
        invariant
            i <= ds.len(),
            t@ == head + diagnostics_text_spec(ds@.take(i as int)),
        decreases ds.len() - i,
    {
        assert(ds@.take(i + 1).drop_last() =~= ds@.take(i as int));
        let d = diagnostic_text(&ds[i]);
        t.append(d.as_str());
        assert(t@ =~= head + diagnostics_text_spec(ds@.take(i + 1)));
        i += 1;
    }
    assert(ds@.take(ds.len() as int) =~= ds@);
    let ghost body = t@;
    if let Some(l) = seed_line {
        t.append(l);
    }
    let ghost with_seeds = t@;
    if let Some(s) = summary {
        let st = summary_text(s);
        t.append(st.as_str());
    }
    let ghost with_summary = t@;
    let errors = count(ds, Severity::Error);
    let warnings = count(ds, Severity::Warning);
    t.append("  ");
    push_decimal(&mut t, errors as u64);
    t.append(" 個錯誤、");
    push_decimal(&mut t, warnings as u64);
    t.append(" 個警告\n");
    assert(t@ =~= report_text_spec(
        id@,
        source@,
        ds@,
        match seed_line {
            Some(l) => Some(l@),
            None => None,
        },
        match summary {
            Some(s) => Some(*s),
            None => None,
        },
    ));
    t
}

} // verus!
