use zeromatch::api::{is_match, make_re, Glob, GlobSet};
use zeromatch::options::MatchOptions;
use zeromatch::scan::scan;

#[test]
fn readme_is_match_one_shot() {
    assert_eq!(is_match(b"src/index.ts", "**/*.{ts,tsx}", None).unwrap(), true);
}

#[test]
fn readme_compiled_glob_test() {
    let g = Glob::new("**/*.{ts,tsx}", None).unwrap();
    assert!(g.test(b"src/index.ts"));
    assert!(!g.test(b"src/index.css"));
}

#[test]
fn readme_test_many() {
    let g = Glob::new("**/*.{ts,tsx}", None).unwrap();
    let inputs = vec![b"a.ts".to_vec(), b"b.css".to_vec(), b"c.tsx".to_vec()];
    assert_eq!(g.test_many(&inputs), vec![true, false, true]);
}

#[test]
fn readme_filter() {
    let g = Glob::new("**/*.{ts,tsx}", None).unwrap();
    let inputs = vec!["a.ts".to_string(), "b.css".to_string(), "c.tsx".to_string()];
    assert_eq!(g.filter(inputs), vec!["a.ts".to_string(), "c.tsx".to_string()]);
}

#[test]
fn readme_glob_set() {
    let patterns = vec!["**/*.ts".to_string(), "!**/node_modules/**".to_string()];
    let set = GlobSet::new(&patterns, None).unwrap();
    assert!(set.test(b"src/app.ts"));
    assert_eq!(set.matches(b"src/app.ts"), vec![0u32]);
}

#[test]
fn readme_test_buffer() {
    let g = Glob::new("**/*.{ts,tsx}", None).unwrap();
    assert!(g.test_buffer("src/index.ts".as_bytes()));
}

#[test]
fn readme_scan() {
    let r = scan("src/**/*.js", &MatchOptions::default());
    assert_eq!(r.base, "src");
    assert_eq!(r.glob, "**/*.js");
    assert!(r.is_glob);
    assert!(r.is_globstar);
    assert!(!r.is_brace);
    assert!(!r.negated);
}

#[test]
fn readme_make_re() {
    assert_eq!(make_re("*.js", None).unwrap(), "^(?:[^/]*\\.js)$");
}
