use zeromatch::options::{MatchOptions, Mode};
use zeromatch::scan::scan;

#[test]
fn scan_negation_and_dot_prefix() {
    let r = scan("!./foo/*.js", &MatchOptions::default());
    assert!(r.negated);
    assert_eq!(r.prefix, "./");
    assert_eq!(r.base, "foo");
    assert_eq!(r.glob, "*.js");
    assert!(r.is_glob);
    assert!(!r.is_globstar);
}

#[test]
fn scan_plain_path_is_all_base() {
    let r = scan("foo/bar", &MatchOptions::default());
    assert!(!r.is_glob);
    assert_eq!(r.base, "foo/bar");
    assert_eq!(r.glob, "");
    assert_eq!(r.prefix, "");
}

#[test]
fn scan_glob_without_base() {
    let r = scan("*.js", &MatchOptions::default());
    assert!(r.is_glob);
    assert_eq!(r.base, "");
    assert_eq!(r.glob, "*.js");
}

#[test]
fn scan_brace_and_bracket_flags() {
    let b = scan("a/{x,y}/z", &MatchOptions::default());
    assert!(b.is_brace);
    assert_eq!(b.base, "a");
    assert_eq!(b.glob, "{x,y}/z");
    let k = scan("a/[xy]", &MatchOptions::default());
    assert!(k.is_bracket);
    let open = scan("a/[xy", &MatchOptions::default());
    assert!(!open.is_bracket);
    assert!(!open.is_glob);
}

#[test]
fn scan_extglob_flags() {
    let e = scan("a/+(x)", &MatchOptions::default());
    assert!(e.is_extglob);
    assert!(!e.negated_extglob);
    let n = scan("!(x)", &MatchOptions::default());
    assert!(n.is_extglob);
    assert!(n.negated_extglob);
    assert!(!n.negated);
}

#[test]
fn scan_escape_skips_next_byte() {
    let r = scan("a/\\*b", &MatchOptions::default());
    assert!(!r.is_glob);
    assert_eq!(r.base, "a/\\*b");
}

#[test]
fn scan_windows_dot_prefix() {
    let mut o = MatchOptions::default();
    o.mode = Mode::Windows;
    let r = scan(".\\a/*.js", &o);
    assert_eq!(r.prefix, ".\\");
    assert!(r.is_glob);
    assert_eq!(r.base, "a");
    let escaped = scan(".\\a\\*.js", &o);
    assert!(!escaped.is_glob);
}

#[test]
fn scan_keeps_multibyte_text() {
    let r = scan("d\u{e9}j\u{e0}/*.txt", &MatchOptions::default());
    assert_eq!(r.base, "d\u{e9}j\u{e0}");
    assert_eq!(r.glob, "*.txt");
}

#[test]
fn scan_pieces_reassemble_the_pattern() {
    let o = MatchOptions::default();
    for pat in ["!./a/b/*.js", "./x/{a,b}/c", "foo/bar", "*.js", "!!a/b/**", "a\\*b/c?", "src/[ab]/x"] {
        let r = scan(pat, &o);
        let rest = pat.trim_start_matches('!');
        let joined = format!("{}{}{}", r.prefix, r.base, r.glob);
        let with_sep = format!("{}{}/{}", r.prefix, r.base, r.glob);
        assert!(rest == joined || (!r.base.is_empty() && rest == with_sep), "{}", pat);
        if !r.is_glob {
            assert_eq!(r.glob, "");
        }
    }
}
