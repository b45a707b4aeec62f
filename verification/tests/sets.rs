use zeromatch::api::{GlobSet, JsMatchOptions};
use zeromatch::options::MatchOptions;
use zeromatch::set::GlobSetMatcher;

fn strings(v: &[&str]) -> Vec<String> {
    v.iter().map(|s| s.to_string()).collect()
}

#[test]
fn set_any_pattern_matches() {
    let set = GlobSetMatcher::new(&strings(&["*.js", "*.ts"]), MatchOptions::default()).unwrap();
    assert!(set.is_match(b"a.ts"));
    assert!(set.is_match(b"a.js"));
    assert!(!set.is_match(b"a.css"));
}

#[test]
fn set_matched_indices_in_order() {
    let set = GlobSetMatcher::new(&strings(&["*.js", "*.ts", "a.*"]), MatchOptions::default()).unwrap();
    let mut out = vec![7u32];
    set.matched_indices(b"a.ts", &mut out);
    assert_eq!(out, vec![1u32, 2u32]);
    set.matched_indices(b"b.css", &mut out);
    assert!(out.is_empty());
}

#[test]
fn set_negated_pattern_only_excludes_from_matches() {
    let set = GlobSet::new(&strings(&["*.ts", "!*.js"]), None).unwrap();
    assert!(!set.test(b"a.css"));
    assert_eq!(set.matches(b"a.css"), Vec::<u32>::new());
    assert!(set.test(b"a.ts"));
    assert_eq!(set.matches(b"a.ts"), vec![0u32]);
    let ex = GlobSet::new(&strings(&["**/*.ts", "!**/node_modules/**"]), None).unwrap();
    assert!(ex.test(b"src/app.ts"));
    assert!(!ex.test(b"node_modules/x/app.ts"));
    assert_eq!(ex.matches(b"node_modules/x/app.ts"), Vec::<u32>::new());
}

#[test]
fn set_reports_first_bad_pattern() {
    let e = GlobSetMatcher::new(&strings(&["*.js", "+(a", "[a-"]), MatchOptions::default()).err().unwrap();
    assert_eq!(e.message, "unterminated extglob");
}

#[test]
fn set_screen_folds_case_under_nocase() {
    let mut j = JsMatchOptions::default();
    j.nocase = Some(true);
    let set = GlobSet::new(&strings(&["*.ts"]), Some(j)).unwrap();
    assert!(set.test(b"a.ts"));
    assert!(set.test(b"A.TS"));
    assert_eq!(set.matches(b"A.TS"), vec![0u32]);
    let abc = GlobSet::new(&strings(&["abc*"]), Some(j)).unwrap();
    assert!(abc.test(b"ABCd"));
    assert_eq!(abc.matches(b"ABCd"), vec![0u32]);
}

#[test]
fn set_test_many() {
    let set = GlobSet::new(&strings(&["*.ts"]), None).unwrap();
    let inputs = vec![b"a.ts".to_vec(), b"b.js".to_vec()];
    assert_eq!(set.test_many(&inputs), vec![true, false]);
    assert!(set.test_buffer(b"c.ts"));
}

#[test]
fn set_screen_never_rejects_a_match() {
    let pats = strings(&["src/*.rs", "**/*.toml", "lib{a,b}"]);
    let set = GlobSetMatcher::new(&pats, MatchOptions::default()).unwrap();
    for input in ["src/main.rs", "a/b/Cargo.toml", "liba", "libb", "x.rs", "README.md"] {
        let any = pats.iter().any(|p| zeromatch::api::is_match(input.as_bytes(), p, None).unwrap());
        assert_eq!(set.is_match(input.as_bytes()), any, "{}", input);
    }
}

#[test]
fn set_screen_keeps_contains_matches() {
    let mut j = JsMatchOptions::default();
    j.contains = Some(true);
    let set = GlobSet::new(&strings(&["needle*x", "**/haystack"]), Some(j)).unwrap();
    assert!(set.test(b"a/needle-x/b"));
    assert!(set.test(b"deep/haystack/more"));
    assert!(!set.test(b"nothing/here"));
}

#[test]
fn set_of_only_negated_patterns_selects_what_none_excludes() {
    let set = GlobSet::new(&strings(&["!a", "!*.js"]), None).unwrap();
    assert!(set.test(b"b"));
    assert_eq!(set.matches(b"b"), vec![0, 1]);
    assert!(!set.test(b"a"));
    assert!(set.matches(b"a").is_empty());
    assert!(!set.test(b"x.js"));
    let one = GlobSet::new(&strings(&["!a"]), None).unwrap();
    assert!(one.test(b"b"));
    assert_eq!(one.matches(b"b"), vec![0]);
}

#[test]
fn empty_set_selects_nothing() {
    let set = GlobSet::new(&strings(&[]), None).unwrap();
    assert!(!set.test(b"a"));
    assert!(set.matches(b"a").is_empty());
}
