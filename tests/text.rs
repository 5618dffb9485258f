use tanin::text::{contains, ends_with, is_blank, is_white_char, replace_char, trim};

#[test]
fn trim_removes_unicode_whitespace() {
    assert_eq!(trim("  a b \t\n"), "a b");
    assert_eq!(trim("\u{3000}x\u{a0}"), "x");
    assert_eq!(trim(""), "");
    assert!(is_blank(" \t "));
    assert!(!is_blank(" a "));
    assert!(is_white_char('\u{2009}'));
    assert!(!is_white_char('_'));
}

#[test]
fn suffixes_and_substrings() {
    assert!(ends_with("rain.opus", ".opus"));
    assert!(!ends_with("opus", ".opus"));
    assert!(contains("[download] 5%", "[download]"));
    assert!(contains("abc", ""));
    assert!(!contains("ab", "abc"));
}

#[test]
fn characters_are_replaced() {
    assert_eq!(replace_char("a_b_c", '_', ' '), "a b c");
    assert_eq!(replace_char("", '_', ' '), "");
}
