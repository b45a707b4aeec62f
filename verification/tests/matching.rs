use zeromatch::api::{is_match, Glob, JsMatchOptions};
use zeromatch::compile::{CompiledGlob, FastShape, MatcherFn};
use zeromatch::matcher::match_anchored_dispatch;

use zeromatch::options::{MatchOptions, Mode};

fn m(input: &str, pattern: &str) -> bool {
    is_match(input.as_bytes(), pattern, None).unwrap()
}

fn m_with(input: &str, pattern: &str, o: JsMatchOptions) -> bool {
    is_match(input.as_bytes(), pattern, Some(o)).unwrap()
}

fn js() -> JsMatchOptions {
    JsMatchOptions::default()
}

#[test]
fn star_stays_in_one_segment() {
    assert!(m("a.js", "*.js"));
    assert!(!m("a/b.js", "*.js"));
    assert!(m("a/b.js", "a/*.js"));
    assert!(!m("a/b/c.js", "a/*.js"));
}

#[test]
fn globstar_crosses_segments() {
    assert!(m("a/b/c.js", "**/*.js"));
    assert!(m("c.js", "**/*.js"));
    assert!(m("x/y/z", "x/**"));
}

#[test]
fn dot_files_need_dot_option() {
    assert!(!m(".a.js", "*.js"));
    let mut o = js();
    o.dot = Some(true);
    assert!(m_with(".a.js", "*.js", o));
}

#[test]
fn nocase_folds_letters() {
    assert!(!m("A.JS", "*.js"));
    let mut o = js();
    o.nocase = Some(true);
    assert!(m_with("A.JS", "*.js", o));
    assert!(m_with("abc", "ABC", o));
}

#[test]
fn nocase_answer_ignores_input_case() {
    let mut o = js();
    o.nocase = Some(true);
    let pats = ["src/*.rs", "**/*.{js,ts}", "a[b-d]?", "+(ab|cd)x", "**/readme", "!*.md"];
    let inputs = [
        ("src/Main.RS", "SRC/main.rs"),
        ("Lib/X.Ts", "lib/x.TS"),
        ("ACz", "acZ"),
        ("ABCDx", "abcdX"),
        ("Docs/README", "docs/readme"),
        ("NOTES.MD", "notes.md"),
    ];
    for p in pats {
        for (a, b) in inputs {
            assert_eq!(m_with(a, p, o.clone()), m_with(b, p, o.clone()), "{} on {} / {}", p, a, b);
        }
    }
    assert!(m_with("SRC/Main.RS", "src/*.rs", o.clone()));
    assert!(m_with("ABCDx", "+(ab|cd)x", o.clone()));
}

#[test]
fn any_char_and_classes() {
    assert!(m("ab", "a?"));
    assert!(!m("a/", "a?"));
    assert!(m("b.txt", "[a-c].txt"));
    assert!(!m("d.txt", "[a-c].txt"));
    assert!(m("b.txt", "[!a].txt"));
    assert!(!m("a.txt", "[!a].txt"));
    assert!(m("5x", "[[:digit:]]x"));
}

#[test]
fn braces_choose_a_branch() {
    assert!(m("a.js", "{a,b}.js"));
    assert!(m("b.js", "{a,b}.js"));
    assert!(!m("c.js", "{a,b}.js"));
    assert!(m("src/x.ts", "src/*.{js,ts}"));
}

#[test]
fn extglobs() {
    assert!(m("a.js", "@(a|b).js"));
    assert!(!m("ab.js", "@(a|b).js"));
    assert!(m("ab.js", "+(a|b).js"));
    assert!(m(".js", "*(a|b).js"));
    assert!(m("a.js", "?(a|b).js"));
}

#[test]
fn negation_flips_the_answer() {
    assert!(!m("a.js", "!*.js"));
    assert!(m("a.css", "!*.js"));
    assert!(m("a.js", "!!*.js"));
}

#[test]
fn windows_separators() {
    let mut o = js();
    o.windows = Some(true);
    assert!(m_with("a\\b.js", "a/*.js", o));
    assert!(!m("a\\b.js", "a/*.js"));
}

#[test]
fn match_base_uses_the_last_segment() {
    let mut o = js();
    o.match_base = Some(true);
    assert!(m_with("a/b/c.js", "*.js", o));
    assert!(!m("a/b/c.js", "*.js"));
}

#[test]
fn contains_matches_anywhere() {
    let mut o = js();
    o.contains = Some(true);
    assert!(m_with("abc", "b", o));
    assert!(!m("abc", "b"));
}

#[test]
fn separators_in_the_prefix_go_to_the_general_matcher() {
    assert!(m("src/a.js", "src/*.js"));
    assert!(m("src/a", "src/*"));
    assert!(!m("src/a/b", "src/*"));
    let g = CompiledGlob::new("src/*", MatchOptions::default()).unwrap();
    assert!(matches!(g.program.shape, FastShape::NoShape));
}

#[test]
fn shapes_are_recognised() {
    let o = MatchOptions::default();
    let lit = CompiledGlob::new("abc", o).unwrap();
    assert!(matches!(lit.program.shape, FastShape::Literal));
    assert_eq!(lit.program.matcher_fn, MatcherFn::Literal);
    let ps = CompiledGlob::new("ab*", o).unwrap();
    assert!(matches!(ps.program.shape, FastShape::PrefixStar { prefix_len: 2 }));
    let pss = CompiledGlob::new("*.js", o).unwrap();
    assert!(matches!(pss.program.shape, FastShape::PrefixStarSuffix { prefix_len: 0, suffix_len: 3, .. }));
    let gl = CompiledGlob::new("**/abc", o).unwrap();
    assert!(matches!(gl.program.shape, FastShape::GlobstarLiteral { suffix_len: 3, .. }));
    let ew = CompiledGlob::new("**/*.ts", o).unwrap();
    assert!(matches!(ew.program.shape, FastShape::EndsWithLiteral { tail_len: 3, .. }));
    let gs = CompiledGlob::new("**/*abc", o).unwrap();
    assert!(matches!(gs.program.shape, FastShape::GlobstarStarSuffix { suffix_len: 3, .. }));
    let de = CompiledGlob::new("**/*.{js,ts}", o).unwrap();
    assert!(matches!(de.program.shape, FastShape::DottedExtensions { exts_off: 0, exts_len: 2 }));
    assert_eq!(de.program.ext_table.len(), 2);
    let dd = CompiledGlob::new("**/*{.js,.ts}", o).unwrap();
    assert!(matches!(dd.program.shape, FastShape::DottedExtensions { exts_off: 0, exts_len: 2 }));
    let sx = CompiledGlob::new("**/*{a,bc}", o).unwrap();
    assert!(matches!(sx.program.shape, FastShape::GlobstarStarSuffixes { suffixes_off: 0, suffixes_len: 2 }));
    assert_eq!(sx.program.suffix_table, vec![(0u32, 1u32), (1u32, 2u32)]);
}

#[test]
fn shaped_matchers_answer() {
    let o = MatchOptions::default();
    let cases: Vec<(&str, &str, bool)> = vec![
        ("abc", "abc", true),
        ("abc", "abd", false),
        ("ab*", "abxyz", true),
        ("ab*", "ab/x", false),
        ("*.js", "x.js", true),
        ("*.js", "x.jsx", false),
        ("**/abc", "abc", true),
        ("**/abc", "x/abc", true),
        ("**/abc", "xabc", false),
        ("**/*.ts", "a/b.ts", true),
        ("**/*.ts", "a/.b.ts", false),
        ("**/*abc", "x/yabc", true),
        ("**/*.{js,ts}", "a/b.js", true),
        ("**/*.{js,ts}", "a/b.css", false),
        ("**/*{a,bc}", "x/ya", true),
        ("**/*{a,bc}", "x/ybc", true),
        ("**/*{a,bc}", "x/yb", false),
    ];
    for (p, s, want) in cases {
        let g = CompiledGlob::new(p, o.clone()).unwrap();
        assert_eq!(zeromatch::matcher::matches(&g.program, &g.opts, s.as_bytes()), want, "{} against {}", p, s);
    }
}

#[test]
fn text_after_a_final_brace_group_is_matched() {
    let o = MatchOptions::default();
    let a = CompiledGlob::new("**/*{a,b}c", o).unwrap();
    assert!(matches!(a.program.shape, FastShape::NoShape));
    assert!(!m("x/ya", "**/*{a,b}c"));
    assert!(m("x/yac", "**/*{a,b}c"));
    let d = CompiledGlob::new("**/*.{js,ts}x", o).unwrap();
    assert!(matches!(d.program.shape, FastShape::NoShape));
    assert!(!m("a/b.js", "**/*.{js,ts}x"));
    assert!(m("a/b.jsx", "**/*.{js,ts}x"));
}

#[test]
fn prefilter_is_longest_top_level_literal() {
    let g = CompiledGlob::new("a*bcd*{xyzzy,q}", MatchOptions::default()).unwrap();
    let (off, len) = g.program.prefilter.unwrap();
    assert_eq!(&g.program.pool[off as usize..(off + len) as usize], b"bcd");
}

#[test]
fn matcher_fn_wraps_for_negation_and_basename() {
    let mut o = MatchOptions::default();
    let n = CompiledGlob::new("!*.js", o).unwrap();
    assert_eq!(n.program.matcher_fn, MatcherFn::NegateThenBase);
    o.match_base = true;
    let b = CompiledGlob::new("*.js", o).unwrap();
    assert_eq!(b.program.matcher_fn, MatcherFn::BasenamePosixThenBase);
    o.mode = Mode::Windows;
    let w = CompiledGlob::new("*.js", o).unwrap();
    assert_eq!(w.program.matcher_fn, MatcherFn::BasenameWindowsThenBase);
    let s = CompiledGlob::new("a/*.js", o).unwrap();
    assert_ne!(s.program.matcher_fn, MatcherFn::BasenameWindowsThenBase);
}

#[test]
fn glob_negated_getter() {
    assert!(Glob::new("!a", None).unwrap().negated());
    assert!(!Glob::new("a", None).unwrap().negated());
}

#[test]
fn glob_filter_indices() {
    let g = Glob::new("*.ts", None).unwrap();
    let inputs = vec![b"a.ts".to_vec(), b"b.js".to_vec(), b"c.ts".to_vec()];
    assert_eq!(g.filter_indices(&inputs), vec![0u32, 2u32]);
}

#[test]
fn is_match_reports_parse_errors() {
    let e = is_match(b"x", "*(a", None).unwrap_err();
    assert_eq!(e.message, "unterminated extglob");
    assert_eq!(e.position, 3);
}

#[test]
fn options_conversion() {
    let mut j = JsMatchOptions::default();
    j.max_brace_depth = Some(1000);
    j.windows = Some(true);
    j.max_length = Some(12);
    let o = j.into_native();
    assert_eq!(o.max_brace_depth, 255);
    assert_eq!(o.mode, Mode::Windows);
    assert_eq!(o.max_length, 12);
    let d = JsMatchOptions::default().into_native();
    assert_eq!(d.max_brace_depth, 10);
    assert_eq!(d.max_length, 65536);
    assert_eq!(d.mode, Mode::Posix);
}

#[test]
fn mode_auto_and_is_sep() {
    let m = Mode::auto();
    assert!(m.is_sep(b'/'));
    assert!(Mode::Windows.is_sep(b'\\'));
    assert!(!Mode::Posix.is_sep(b'\\'));
    assert_eq!(m, Mode::for_separator(std::path::MAIN_SEPARATOR));
    assert_eq!(Mode::for_separator('\\'), Mode::Windows);
    assert_eq!(Mode::for_separator('/'), Mode::Posix);
}

#[test]
fn alternatives_are_retried_until_the_input_ends() {
    assert!(m("ab", "{a,ab}"));
    assert!(m("a", "{a,ab}"));
    assert!(!m("abc", "{a,ab}"));
    assert!(m("a/x.js.js", "a/*.js"));
    assert!(m("src/index.js/index.js", "src/**/index.js"));
}

#[test]
fn negated_extglob_excludes_only_whole_matches() {
    assert!(m("ab", "!(a)"));
    assert!(!m("a", "!(a)"));
    assert!(m("b", "!(a)"));
    assert!(!m("ab", "!(a*)"));
}

#[test]
fn dotted_extensions_agree_with_single_extension() {
    assert_eq!(m(".ts", "**/*.{ts,tsx}"), m(".ts", "**/*.ts"));
    assert_eq!(m("a/.ts", "**/*.{ts,tsx}"), m("a/.ts", "**/*.ts"));
    assert!(!m("a/.x.ts", "**/*.{ts,tsx}"));
}

#[test]
fn negation_keeps_basename_matching() {
    let mut o = js();
    o.match_base = Some(true);
    assert!(m_with("a/b.js", "*.js", o));
    assert!(!m_with("a/b.js", "!*.js", o));
    assert!(m_with("a/b.ts", "!*.js", o));
}

#[test]
fn nocase_negated_class_leaves_out_both_cases() {
    let mut o = js();
    o.nocase = Some(true);
    assert!(!m_with("a", "[!a]", o));
    assert!(!m_with("A", "[!a]", o));
    assert!(m_with("b", "[!a]", o));
    assert!(m_with("B", "[!A]", o));
}

#[test]
fn nested_groups_keep_their_own_alternatives() {
    assert!(m("ab", "{a{b,c},d}"));
    assert!(m("ac", "{a{b,c},d}"));
    assert!(m("d", "{a{b,c},d}"));
    assert!(!m("b", "{a{b,c},d}"));
    assert!(!m("c", "{a{b,c},d}"));
    let g = CompiledGlob::new("{a{b,c},d}", MatchOptions::default()).unwrap();
    assert_eq!(g.program.alt_table.len(), 4);
}

#[test]
fn bang_runs_negate_by_parity() {
    assert!(m("a", "!!a"));
    assert!(!m("a", "!!!a"));
    assert!(m("b", "!!!a"));
    assert!(!m("b", "!!a"));
}

#[test]
fn plain_patterns_match_their_language() {
    assert!(m("src/lib.rs", "src/*.rs"));
    assert!(!m("src/a/lib.rs", "src/*.rs"));
    assert!(m("ab/c", "a?/[a-c]"));
    assert!(!m("a/.x", "a/*"));
    assert!(m("a/.x", "a/.*"));
    assert!(m("x.y.z", "*.z"));
}

#[test]
fn globstar_stands_for_whole_segments_only() {
    assert!(m("a", "**/?"));
    assert!(m("x/a", "**/?"));
    assert!(!m("ab", "**/?"));
    assert!(!m("x/ab", "**/?"));
    assert!(m("x/a", "x/**/?"));
    assert!(!m("x/ab", "x/**/?"));
    assert!(m("bc", "**/[a-z]c"));
    assert!(!m("abc", "**/[a-z]c"));
    assert!(!m("x/.abc", "**/*abc"));
    assert!(!m("x/.abc", "**/*ab?"));
    assert!(m("x/yabc", "**/*ab?"));
}

#[test]
fn fast_paths_agree_with_general_matcher() {
    let patterns = [
        "abc", "ab*", "ab*cd", "**/x.js", "**/*.js", "**/*abc", "**/*{.a,.b}", "**/*.{ts,js}",
        "**/*{a,bc}", "a*", "*.txt",
    ];
    let inputs = [
        "", "abc", "ABC", "abx", "abcd", "ab/cd", "x.js", "a/x.js", "a/.js", ".js", "a/b/c.js",
        "x/.abc", "x/yabc", "q.a", "q/.b", ".a", "w.ts", "d/.ts", "e/f.js", "a", "bc", "x/bc",
        "a.txt", ".txt", "dir/a.txt",
    ];
    for nocase in [false, true] {
        for dot in [false, true] {
            let mut o = MatchOptions::default();
            o.nocase = nocase;
            o.dot = dot;
            for p in patterns.iter() {
                let g = CompiledGlob::new(p, o.clone()).unwrap();
                for s in inputs.iter() {
                    assert_eq!(
                        zeromatch::matcher::matches(&g.program, &g.opts, s.as_bytes()),
                        match_anchored_dispatch(&g.program, &g.opts, s.as_bytes()),
                        "pattern {} input {} nocase {} dot {}",
                        p,
                        s,
                        nocase,
                        dot
                    );
                }
            }
        }
    }
}

#[test]
fn globstar_takes_any_run_of_whole_segments() {
    assert!(m("a/b", "a/**/b"));
    assert!(m("a/x/b", "a/**/b"));
    assert!(m("a/x/y/b", "a/**/b"));
    assert!(!m("a/xb", "a/**/b"));
    assert!(m("a/x", "a/**"));
    assert!(m("b.c", "**/b.c"));
    assert!(m("x/y/b.c", "**/b.c"));
    assert!(!m("xb.c", "**/b.c"));
}

#[test]
fn match_base_matches_the_last_segment() {
    let mut mb = MatchOptions::default();
    mb.match_base = true;
    let plain = MatchOptions::default();
    for p in ["*.js", "!*.js", "c.?s", "[ab]*"] {
        let g = CompiledGlob::new(p, mb).unwrap();
        let g0 = CompiledGlob::new(p, plain).unwrap();
        for (x, base) in [("a/b/c.js", "c.js"), ("c.js", "c.js"), ("a/b.ts", "b.ts"), ("x/", ""), ("d/a", "a")] {
            assert_eq!(
                zeromatch::matcher::matches(&g.program, &g.opts, x.as_bytes()),
                zeromatch::matcher::matches(&g0.program, &g0.opts, base.as_bytes()),
                "{} on {}",
                p,
                x
            );
        }
    }
}
