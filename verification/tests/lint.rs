use baker::xtask::lint::forbidden_uses;
use baker::xtask::lint::FORBIDDEN;

#[test]
fn forbidden_words_are_reported_with_their_line_numbers() {
    let src = "import SwiftUI\nlet e = RustEngineAdapter()\nimport colorlull_engine\n";
    assert_eq!(forbidden_uses(src.as_bytes()), vec![(2, 0), (3, 1)]);
}

/// Whole-line comments may discuss the rule; trailing comments may not.
#[test]
fn whole_line_comments_are_exempt_but_trailing_ones_are_not() {
    let src = "  // RustEngine is not for the Shell\n * RustEngine\n\t/* RustEngine */\nlet x = 1 // RustEngine\n";
    assert_eq!(forbidden_uses(src.as_bytes()), vec![(4, 0)]);
}

/// Unicode white space before a comment marker still makes a comment.
#[test]
fn unicode_white_space_is_trimmed() {
    let src = "\u{3000}\u{A0}// RustEngine\n";
    assert!(forbidden_uses(src.as_bytes()).is_empty());
}

#[test]
fn crlf_lines_and_a_missing_final_newline_are_handled() {
    let src = "a\r\nb\r\nimport colorlull_engine RustEngine";
    assert_eq!(forbidden_uses(src.as_bytes()), vec![(3, 0), (3, 1)]);
    assert!(forbidden_uses(b"").is_empty());
    assert_eq!(forbidden_uses(b"\n\nRustEngine"), vec![(3, 0)]);
}

#[test]
fn the_needles_are_the_forbidden_words() {
    assert_eq!(FORBIDDEN[0].0, "RustEngine");
    assert_eq!(forbidden_uses(FORBIDDEN[1].0.as_bytes()), vec![(1, 1)]);
}
