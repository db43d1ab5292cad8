use baker::code;
use baker::report::Severity;
use baker::source::source_diagnostics;
use baker::source::Meta;

const CATEGORIES: [&str; 6] = ["animals", "characters", "food", "mandala", "nature", "vehicles"];

fn meta(id: &str, category: &str) -> Meta {
    Meta { id: id.into(), title: "t".into(), category: category.into(), notes: None }
}

#[test]
fn a_consistent_meta_has_no_findings() {
    assert!(source_diagnostics(&meta("kirby-1", "mandala"), "kirby-1", &CATEGORIES, true, true).is_empty());
}

#[test]
fn an_id_other_than_the_folder_name_is_an_error() {
    let ds = source_diagnostics(&meta("kirby-2", "mandala"), "kirby-1", &CATEGORIES, true, true);
    assert_eq!(ds.len(), 1);
    assert_eq!(ds[0].code, code::META_ID_MISMATCH);
    assert_eq!(ds[0].severity, Severity::Error);
    assert_eq!(
        ds[0].message,
        "meta.json 的 id 是 \"kirby-2\"，資料夾名是 \"kirby-1\"。id 是永久識別碼，想改名請改 title"
    );
}

#[test]
fn a_misspelt_category_is_quoted_with_the_allowed_ones() {
    let ds = source_diagnostics(&meta("a", "mandela"), "a", &CATEGORIES, true, true);
    assert_eq!(ds[0].code, code::META_BAD_CATEGORY);
    assert_eq!(
        ds[0].message,
        "meta.json 的 category 是 \"mandela\"，必須是六選一：animals / characters / food / mandala / nature / vehicles"
    );
}

#[test]
fn missing_files_are_listed_in_one_error() {
    let ds = source_diagnostics(&meta("a", "food"), "a", &CATEGORIES, false, false);
    assert_eq!(ds.len(), 1);
    assert_eq!(ds[0].code, code::SOURCE_INCOMPLETE);
    assert_eq!(ds[0].message, "缺少必交檔案：lineart.png、seeds.png");
    let only_seeds = source_diagnostics(&meta("a", "food"), "a", &CATEGORIES, true, false);
    assert_eq!(only_seeds[0].message, "缺少必交檔案：seeds.png");
}

#[test]
fn every_finding_is_reported_in_order() {
    let ds = source_diagnostics(&meta("b", "x"), "a", &CATEGORIES, false, true);
    let codes: Vec<&str> = ds.iter().map(|d| d.code).collect();
    assert_eq!(codes, vec![code::META_ID_MISMATCH, code::META_BAD_CATEGORY, code::SOURCE_INCOMPLETE]);
}
