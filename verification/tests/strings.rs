use news_cli::sanitize::sanitize_for_terminal;
use news_cli::text::{str_eq, str_le, usize_to_string};

#[test]
fn sanitize_strips_ansi_sequences() {
    assert_eq!(
        sanitize_for_terminal("\u{1b}[31mred\u{1b}[0m text"),
        "red text"
    );
    assert_eq!(sanitize_for_terminal("\u{1b}[1;32mbold\u{1b}[m"), "bold");
    // a lone escape that starts no control sequence is a control character
    // and is removed by the second pass
    assert_eq!(sanitize_for_terminal("a\u{1b}b"), "ab");
    // parameter bytes (digits, ';', '?') and intermediate bytes (space..'/')
    // both belong to the sequence
    assert_eq!(sanitize_for_terminal("x\u{1b}[?25ly"), "xy");
    assert_eq!(sanitize_for_terminal("x\u{1b}[0 qy"), "xy");
    // an unterminated sequence is not a match: only the escape character
    // itself is removed, its printable tail survives
    assert_eq!(sanitize_for_terminal("x\u{1b}[12"), "x[12");
}

#[test]
fn sanitize_removes_control_characters() {
    assert_eq!(sanitize_for_terminal("a\u{7}b\u{0}c"), "abc");
    assert_eq!(sanitize_for_terminal("line1\nline2\tend"), "line1line2end");
    assert_eq!(sanitize_for_terminal("del\u{7f}ete"), "delete");
}

#[test]
fn sanitize_trims_whitespace() {
    assert_eq!(sanitize_for_terminal("  padded  "), "padded");
    assert_eq!(sanitize_for_terminal("   "), "");
    assert_eq!(sanitize_for_terminal(""), "");
}

#[test]
fn sanitize_caps_length_at_two_hundred() {
    let long = "x".repeat(500);
    let out = sanitize_for_terminal(&long);
    assert_eq!(out.chars().count(), 200);
    let short = "y".repeat(200);
    assert_eq!(sanitize_for_terminal(&short), short);
}

#[test]
fn decimal_rendering() {
    assert_eq!(usize_to_string(0), "0");
    assert_eq!(usize_to_string(7), "7");
    assert_eq!(usize_to_string(42), "42");
    assert_eq!(usize_to_string(1234567890), "1234567890");
}

#[test]
fn string_comparisons() {
    assert!(str_eq("abc", "abc"));
    assert!(!str_eq("abc", "abd"));
    assert!(!str_eq("abc", "ab"));
    assert!(str_le("abc", "abd"));
    assert!(str_le("ab", "abc"));
    assert!(str_le("abc", "abc"));
    assert!(!str_le("b", "aaaa"));
}
