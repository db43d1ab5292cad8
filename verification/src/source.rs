//! The source directory of an asset and the checks on its `meta.json`.
use vstd::prelude::*;
use crate::code;
use crate::report::Diagnostic;
use crate::report::Stage;
use crate::report::Severity;
use crate::xtask::names::NameOrder;
use crate::xtask::names::compare_names;

verus! {

pub const LINEART: &'static str = "lineart.png";
pub const SEEDS: &'static str = "seeds.png";
pub const SHADE: &'static str = "shade.png";
pub const META: &'static str = "meta.json";

/// The contents of `meta.json`.
#[derive(Debug, Clone)]
pub struct Meta {
    pub id: String,
    /// For people only; must be present but is not used.
    pub title: String,
    /// Kept as written, so that a misspelling can be quoted back to the artist.
    pub category: String,
    /// Ignored entirely.
    pub notes: Option<String>,
}

/// A source directory. Paths are kept as text.
#[derive(Debug, Clone)]
pub struct Source {
    pub dir: String,
    /// The directory's name. It is the asset's id; `meta.json` only repeats it.
    pub folder_id: String,
    pub meta: Meta,
    pub lineart: String,
    pub seeds: String,
    pub shade: Option<String>,
}

/// The names joined with `sep` between them.
pub open spec fn joined(names: Seq<Seq<char>>, sep: Seq<char>) -> Seq<char>
    decreases names.len(),
{
    if names.len() == 0 {
        Seq::empty()
    } else if names.len() == 1 {
        names[0]
    } else {
        joined(names.drop_last(), sep) + sep + names.last()
    }
}

/// The views of a list of texts.
pub open spec fn texts_of(v: Seq<&str>) -> Seq<Seq<char>> {
    v.map_values(|s: &str| s@)
}

/// The message when `meta.json` names another id than its directory.
pub open spec fn id_mismatch_spec(id: Seq<char>, folder_id: Seq<char>) -> Seq<char> {
    "meta.json 的 id 是 \""@ + id + "\"，資料夾名是 \""@ + folder_id + "\"。id 是永久識別碼，想改名請改 title"@
}

/// The message when the category is none of the allowed ones.
pub open spec fn bad_category_spec(category: Seq<char>, allowed: Seq<Seq<char>>) -> Seq<char> {
    "meta.json 的 category 是 \""@ + category + "\"，必須是六選一："@ + joined(allowed, " / "@)
}

/// The required files that are missing, in the order lineart, seeds.
pub open spec fn missing_files(has_lineart: bool, has_seeds: bool) -> Seq<Seq<char>> {
    (if has_lineart { Seq::empty() } else { seq![LINEART@] }) + (if has_seeds { Seq::empty() } else { seq![SEEDS@] })
}

/// What `meta.json` and the directory listing break, in the order: id, category,
/// missing files.
pub open spec fn source_findings(
    meta_id: Seq<char>,
    category: Seq<char>,
    folder_id: Seq<char>,
    allowed: Seq<Seq<char>>,
    has_lineart: bool,
    has_seeds: bool,
) -> Seq<(&'static str, Seq<char>)> {
    let missing = missing_files(has_lineart, has_seeds);
    (if meta_id == folder_id { Seq::empty() } else { seq![(code::META_ID_MISMATCH, id_mismatch_spec(meta_id, folder_id))] })
        + (if allowed.contains(category) { Seq::empty() } else { seq![(code::META_BAD_CATEGORY, bad_category_spec(category, allowed))] })
        + (if missing.len() == 0 { Seq::empty() } else { seq![(code::SOURCE_INCOMPLETE, "缺少必交檔案："@ + joined(missing, "、"@))] })
}

/// Each diagnostic is a master-stage error whose code and message are the
/// finding's, with no coordinates and no region.
pub open spec fn reports(ds: Seq<Diagnostic>, findings: Seq<(&'static str, Seq<char>)>) -> bool {
    &&& ds.len() == findings.len()
    &&& forall|i: int| 0 <= i < ds.len() ==> {
        &&& (#[trigger] ds[i]).severity == Severity::Error
        &&& ds[i].stage == Stage::Master
        &&& ds[i].code == findings[i].0
        &&& ds[i].message@ == findings[i].1
        &&& ds[i].coords@.len() == 0
        &&& ds[i].coord_total == 0
        &&& ds[i].region is None
    }
}

fn push_joined(s: &mut String, names: &[&str], sep: &str)
    ensures
        final(s)@ == old(s)@ + joined(texts_of(names@), sep@),
{
    let ghost pre = s@;
    let ghost all = texts_of(names@);
    assert(joined(all.take(0), sep@) =~= Seq::<char>::empty());
    assert(s@ =~= pre + joined(all.take(0), sep@));
    let mut i: usize = 0;
    while i < names.len()
        invariant
            i <= names@.len(),
            all == texts_of(names@),
            s@ == pre + joined(all.take(i as int), sep@),
        decreases names@.len() - i,
    {
        assert(all.take(i + 1).drop_last() =~= all.take(i as int));
        assert(all.take(i + 1).last() == names@[i as int]@);
        if i > 0 {
            s.append(sep);
        }
        s.append(names[i]);
        proof {
            if i == 0 {
                assert(joined(all.take(1), sep@) == all.take(1)[0]);
            }
        }
        assert(s@ =~= pre + joined(all.take(i + 1), sep@));
        i += 1;
    }
    assert(all.take(names@.len() as int) =~= all);
}

fn contains_text(names: &[&str], name: &str) -> (b: bool)
    ensures
        b == texts_of(names@).contains(name@),
{
    let ghost all = texts_of(names@);
    let mut i: usize = 0;
    while i < names.len()
        invariant
            i <= names@.len(),
            all == texts_of(names@),
            forall|k: int| 0 <= k < i ==> all[k] != name@,
        decreases names@.len() - i,
    {
        if compare_names(names[i], name) == NameOrder::Equal {
            assert(all[i as int] == name@);
            return true;
        }
        i += 1;
    }
    false
}

/// The checks on a source directory that need no image: the id in `meta.json`
/// must be the directory's name, the category one of `allowed`, and the
/// lineart and the seeds must be there.
pub fn source_diagnostics(
    meta: &Meta,
    folder_id: &str,
    allowed: &[&str],
    has_lineart: bool,
    has_seeds: bool,
) -> (ds: Vec<Diagnostic>)
    ensures
        reports(
            ds@,
            source_findings(meta.id@, meta.category@, folder_id@, texts_of(allowed@), has_lineart, has_seeds),
        ),
{
    let ghost findings = source_findings(meta.id@, meta.category@, folder_id@, texts_of(allowed@), has_lineart, has_seeds);
    let mut ds: Vec<Diagnostic> = Vec::new();
    let ghost f1 = if meta.id@ == folder_id@ {
        Seq::<(&'static str, Seq<char>)>::empty()
    } else {
        seq![(code::META_ID_MISMATCH, id_mismatch_spec(meta.id@, folder_id@))]
    };
    if compare_names(meta.id.as_str(), folder_id) != NameOrder::Equal {
        let mut m = String::new();
        m.append("meta.json 的 id 是 \"");
        m.append(meta.id.as_str());
        m.append("\"，資料夾名是 \"");
        m.append(folder_id);
        m.append("\"。id 是永久識別碼，想改名請改 title");
        ds.push(Diagnostic::error(code::META_ID_MISMATCH, Stage::Master, m));
    }
    assert(reports(ds@, f1));
    let ghost f2 = f1 + if texts_of(allowed@).contains(meta.category@) {
        Seq::<(&'static str, Seq<char>)>::empty()
    } else {
        seq![(code::META_BAD_CATEGORY, bad_category_spec(meta.category@, texts_of(allowed@)))]
    };
    let ghost d1 = ds@;
    if !contains_text(allowed, meta.category.as_str()) {
        let mut m = String::new();
        m.append("meta.json 的 category 是 \"");
        m.append(meta.category.as_str());
        m.append("\"，必須是六選一：");
        push_joined(&mut m, allowed, " / ");
        ds.push(Diagnostic::error(code::META_BAD_CATEGORY, Stage::Master, m));
    }
    assert(reports(ds@, f2)) by {
        assert forall|i: int| 0 <= i < d1.len() implies ds@[i] == d1[i] by {}
    }
    let ghost d2 = ds@;
    let ghost missing = missing_files(has_lineart, has_seeds);
    if !has_lineart || !has_seeds {
        let mut names: Vec<&str> = Vec::new();
        if !has_lineart {
            names.push(LINEART);
        }
        if !has_seeds {
            names.push(SEEDS);
        }
        assert(texts_of(names@) =~= missing);
        let mut m = String::new();
        m.append("缺少必交檔案：");
        push_joined(&mut m, names.as_slice(), "、");
        ds.push(Diagnostic::error(code::SOURCE_INCOMPLETE, Stage::Master, m));
    }
    assert(reports(ds@, findings)) by {
        assert forall|i: int| 0 <= i < d2.len() implies ds@[i] == d2[i] by {}
        assert(findings =~= f2 + if missing.len() == 0 {
            Seq::<(&'static str, Seq<char>)>::empty()
        } else {
            seq![(code::SOURCE_INCOMPLETE, "缺少必交檔案："@ + joined(missing, "、"@))]
        });
    }
    ds
}

} // verus!
