use json_parser::text::{same_text, split_first};

#[test]
fn split_first_gives_the_code_and_the_text_behind() {
    assert_eq!(split_first(""), None);
    assert_eq!(split_first("a"), Some((0x61, "")));
    assert_eq!(split_first("\"x"), Some((0x22, "x")));
    assert_eq!(split_first("\u{7f}x"), Some((0x7f, "x")));
    assert_eq!(split_first("\u{80}x"), Some((0x80, "x")));
    assert_eq!(split_first("\u{e9}x"), Some((0x80, "x")));
    assert_eq!(split_first("\u{7ff}x"), Some((0x80, "x")));
    assert_eq!(split_first("\u{800}x"), Some((0x80, "x")));
    assert_eq!(split_first("\u{4e2d}\u{6587}"), Some((0x80, "\u{6587}")));
    assert_eq!(split_first("\u{ffff}x"), Some((0x80, "x")));
    assert_eq!(split_first("\u{10000}x"), Some((0x80, "x")));
    assert_eq!(split_first("\u{1f600}\u{e9}"), Some((0x80, "\u{e9}")));
    assert_eq!(split_first("\u{10ffff}"), Some((0x80, "")));
}

#[test]
fn same_text_compares_characters() {
    assert!(same_text("", ""));
    assert!(same_text("abc", "abc"));
    assert!(same_text("\u{e9}\u{1f600}", "\u{e9}\u{1f600}"));
    assert!(!same_text("abc", "abd"));
    assert!(!same_text("abc", "ab"));
    assert!(!same_text("", "a"));
    assert!(!same_text("e", "\u{e9}"));
}
