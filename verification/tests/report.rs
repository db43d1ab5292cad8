use baker::code;
use baker::report::count;
use baker::report::diagnostic_text;
use baker::report::find;
use baker::report::has_error;
use baker::report::report_text;
use baker::report::seed_line;
use baker::report::summary_text;
use baker::report::Coords;
use baker::report::Diagnostic;
use baker::report::Severity;
use baker::report::Stage;
use baker::report::Summary;
use baker::report::MAX_COORDS;

#[test]
fn output_coords_are_converted_back_to_master_space() {
    let mut coords = Coords::output();
    coords.push(10, 20);
    let d = Diagnostic::warning(code::TINY_REGION, Stage::Output, "x".into()).with_coords(coords);
    assert_eq!(d.coords, vec![(20, 40)]);
}

#[test]
fn coords_are_capped_but_total_is_kept() {
    let mut coords = Coords::master();
    for i in 0..100 {
        coords.push(i, i);
    }
    let d = Diagnostic::error(code::ORPHAN_AREA, Stage::Master, "x".into()).with_coords(coords);
    assert_eq!(d.coords.len(), MAX_COORDS);
    assert_eq!(d.coord_total, 100);
    let text = report_text("x", "x", &[d], None, None);
    assert!(text.contains("另有 84 處"), "{text}");
}

/// The seed line handed in is printed even when the asset is rejected.
#[test]
fn seed_stats_are_printed_even_when_the_asset_is_rejected() {
    let ds = vec![Diagnostic::error(code::ORPHAN_AREA, Stage::Master, "x".into())];
    let line = seed_line(7, &format!("{:.2}", 0.0498f32 * 100.0));
    let text = report_text("x", "x", &ds, Some(&line), None);
    assert!(text.contains("色標 7 個"), "{text}");
    assert!(text.contains("4.98%"), "{text}");
}

#[test]
fn a_diagnostic_renders_mark_code_stage_region_and_coordinates() {
    let mut coords = Coords::output();
    coords.push(1, 2);
    coords.push(3, 4);
    let d = Diagnostic::warning(code::REGION_SPLIT, Stage::Output, "斷了".into())
        .with_coords(coords)
        .with_region(7);
    assert_eq!(
        diagnostic_text(&d),
        "  ⚠ [region-split] 輸出：斷了\n      區域 #7\n      （母帶座標，於輸出解析度發現） (2, 4) (6, 8)\n"
    );
    let plain = Diagnostic::error(code::CANVAS_SIZE, Stage::Master, "m".into());
    assert_eq!(diagnostic_text(&plain), "  ✗ [canvas-size] 母帶：m\n");
}

#[test]
fn the_report_ends_with_the_error_and_warning_counts() {
    let ds = vec![
        Diagnostic::error(code::ORPHAN_AREA, Stage::Master, "a".into()),
        Diagnostic::warning(code::TINY_REGION, Stage::Output, "b".into()),
        Diagnostic::error(code::SEED_COLLISION, Stage::Master, "c".into()),
    ];
    assert_eq!(count(&ds, Severity::Error), 2);
    assert_eq!(count(&ds, Severity::Warning), 1);
    assert!(has_error(&ds));
    assert!(!has_error(&ds[1..2]));
    assert_eq!(find(&ds, code::SEED_COLLISION).unwrap().message, "c");
    assert!(find(&ds, code::REGION_SPLIT).is_none());
    let text = report_text("id-1", "src/id-1", &ds, None, None);
    assert!(text.starts_with("baker：id-1 （src/id-1）\n"), "{text}");
    assert!(text.ends_with("  2 個錯誤、1 個警告\n"), "{text}");
}

#[test]
fn a_packaged_asset_prints_its_summary() {
    let s = Summary {
        id: "a".into(),
        canvas_size: [4096, 4096],
        aspect: "square",
        region_count: 120,
        difficulty: "easy",
        category: "mandala",
        has_shade: false,
        content_hash: "sha256:00".into(),
        output: "packs/a".into(),
    };
    assert_eq!(
        summary_text(&s),
        "  ✓ 4096×4096 square ／ 120 區 ／ easy ／ shade 無\n  → packs/a\n  sha256:00\n"
    );
    let text = report_text("a", "s", &[], None, Some(&s));
    assert!(text.contains("120 區"), "{text}");
    assert!(text.ends_with("  0 個錯誤、0 個警告\n"), "{text}");
}

#[test]
fn an_empty_collector_reports_nothing() {
    let c = Coords::master();
    assert!(c.is_empty());
    assert_eq!(c.total(), 0);
}

/// The seed line: the count in decimal and the percentage as handed in.
#[test]
fn seed_line_reads_count_and_percentage() {
    assert_eq!(seed_line(7, "4.98"), "  色標 7 個／線像素 4.98%\n");
    assert_eq!(seed_line(1024, "0.00"), "  色標 1024 個／線像素 0.00%\n");
}
