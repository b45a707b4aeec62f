use zeromatch::options::{MatchOptions, Mode};
use zeromatch::regex_emit::make_re_source;

fn re(p: &str, o: &MatchOptions) -> String {
    make_re_source(p, o).unwrap()
}

#[test]
fn regex_anchors_and_groups() {
    let o = MatchOptions::default();
    assert_eq!(re("a/b", &o), "^(?:a/b)$");
    assert_eq!(re("a.b", &o), "^(?:a\\.b)$");
    assert_eq!(re("**", &o), "^(?:.*)$");
    assert_eq!(re("a?", &o), "^(?:a[^/])$");
    assert_eq!(re("[abc]", &o), "^(?:[\\x61\\x62\\x63])$");
}

#[test]
fn regex_negation_is_a_lookahead() {
    assert_eq!(re("!a", &MatchOptions::default()), "^(?:(?!a).*)$");
}

#[test]
fn regex_contains_drops_anchors() {
    let mut o = MatchOptions::default();
    o.contains = true;
    assert_eq!(re("a", &o), "(?:a)");
}

#[test]
fn regex_windows_separators() {
    let mut o = MatchOptions::default();
    o.mode = Mode::Windows;
    assert_eq!(re("a/*", &o), "^(?:a[/\\\\][^/\\\\]*)$");
}

#[test]
fn regex_groups() {
    let o = MatchOptions::default();
    assert_eq!(re("{a,b}", &o), "^(?:(?:a|b))$");
    assert_eq!(re("+(a|b)", &o), "^(?:(?:a|b)+)$");
    assert_eq!(re("?(a)", &o), "^(?:(?:a)?)$");
    assert_eq!(re("*(a)", &o), "^(?:(?:a)*)$");
    assert_eq!(re("@(a)", &o), "^(?:(?:a))$");
}

#[test]
fn regex_reports_parse_errors() {
    let e = make_re_source("+(a", &MatchOptions::default()).unwrap_err();
    assert_eq!(e.message, "unterminated extglob");
}

#[test]
fn regex_keeps_non_ascii_text() {
    let o = MatchOptions::default();
    assert_eq!(re("é", &o), "^(?:é)$");
    assert_eq!(re("día.txt", &o), "^(?:día\\.txt)$");
}

#[test]
fn regex_negated_extglob_is_a_lookahead() {
    let o = MatchOptions::default();
    assert_eq!(re("!(a)", &o), "^(?:(?:(?!(?:a)(?:/|$))[^/]*))$");
}

#[test]
fn regex_negated_class_lists_the_rest() {
    let o = MatchOptions::default();
    let r = re("[!a]", &o);
    assert!(r.starts_with("^(?:[\\x00"));
    assert!(!r.contains("\\x61"));
    assert!(!r.contains("\\x2f"));
    assert!(r.ends_with("\\u0080-\\uffff])$"));
}
