use zeromatch::ast::{ExtKind, Node};
use zeromatch::options::MatchOptions;
use zeromatch::parse::parse;

fn opts() -> MatchOptions {
    MatchOptions::default()
}

#[test]
fn parse_literal_star_and_separator() {
    let p = parse("src/*.js", &opts()).unwrap();
    assert!(!p.negated);
    assert!(p.has_slash);
    assert_eq!(p.nodes.len(), 4);
    assert!(matches!(&p.nodes[0], Node::Literal(b) if b.as_slice() == b"src"));
    assert!(matches!(p.nodes[1], Node::Sep));
    assert!(matches!(p.nodes[2], Node::Star));
    assert!(matches!(&p.nodes[3], Node::Literal(b) if b.as_slice() == b".js"));
}

#[test]
fn parse_globstar_and_any_char() {
    let p = parse("**/a?", &opts()).unwrap();
    assert!(matches!(p.nodes[0], Node::Globstar));
    assert!(matches!(p.nodes[1], Node::Sep));
    assert!(matches!(&p.nodes[2], Node::Literal(b) if b.as_slice() == b"a"));
    assert!(matches!(p.nodes[3], Node::AnyChar));
}

#[test]
fn parse_noglobstar_gives_star() {
    let mut o = opts();
    o.noglobstar = true;
    let p = parse("**", &o).unwrap();
    assert_eq!(p.nodes.len(), 1);
    assert!(matches!(p.nodes[0], Node::Star));
}

#[test]
fn parse_negation_counts_bangs() {
    assert!(parse("!a", &opts()).unwrap().negated);
    assert!(!parse("!!a", &opts()).unwrap().negated);
    assert!(parse("!!!a", &opts()).unwrap().negated);
    let mut o = opts();
    o.nonegate = true;
    let p = parse("!a", &o).unwrap();
    assert!(!p.negated);
    assert!(matches!(&p.nodes[0], Node::Literal(b) if b.as_slice() == b"!a"));
}

#[test]
fn parse_negated_extglob_is_not_negation() {
    let p = parse("!(a)", &opts()).unwrap();
    assert!(!p.negated);
    assert!(matches!(&p.nodes[0], Node::Extglob { kind: ExtKind::Negate, branches } if branches.len() == 1));
}

#[test]
fn parse_escapes() {
    let p = parse("\\*\\n", &opts()).unwrap();
    assert_eq!(p.nodes.len(), 1);
    assert!(matches!(&p.nodes[0], Node::Literal(b) if b.as_slice() == b"*\n"));
}

#[test]
fn parse_brace_branches() {
    let p = parse("{a,b/c}", &opts()).unwrap();
    assert!(p.has_slash);
    match &p.nodes[0] {
        Node::Brace(brs) => {
            assert_eq!(brs.len(), 2);
            assert_eq!(brs[1].len(), 3);
        },
        _ => panic!("expected a brace group"),
    }
}

#[test]
fn parse_unbalanced_brace_is_literal() {
    let p = parse("{abc}", &opts()).unwrap();
    assert_eq!(p.nodes.len(), 1);
    assert!(matches!(&p.nodes[0], Node::Literal(b) if b.as_slice() == b"{abc}"));
}

#[test]
fn parse_unclosed_class_is_literal() {
    let p = parse("[abc", &opts()).unwrap();
    assert_eq!(p.nodes.len(), 1);
    assert!(matches!(&p.nodes[0], Node::Literal(b) if b.as_slice() == b"[abc"));
}

#[test]
fn parse_class_members() {
    let p = parse("[a-c]", &opts()).unwrap();
    match &p.nodes[0] {
        Node::Class(c) => {
            assert!(c.contains(b'a'));
            assert!(c.contains(b'b'));
            assert!(c.contains(b'c'));
            assert!(!c.contains(b'd'));
        },
        _ => panic!("expected a class"),
    }
}

#[test]
fn parse_negated_class_excludes_separator() {
    let p = parse("[!a]", &opts()).unwrap();
    match &p.nodes[0] {
        Node::Class(c) => {
            assert!(!c.contains(b'a'));
            assert!(!c.contains(b'/'));
            assert!(c.contains(b'b'));
            assert!(c.contains(b'\\'));
        },
        _ => panic!("expected a class"),
    }
}

#[test]
fn parse_posix_class() {
    let p = parse("[[:digit:]]", &opts()).unwrap();
    match &p.nodes[0] {
        Node::Class(c) => {
            assert!(c.contains(b'0'));
            assert!(c.contains(b'9'));
            assert!(!c.contains(b'a'));
        },
        _ => panic!("expected a class"),
    }
}

#[test]
fn parse_nocase_class_folds() {
    let mut o = opts();
    o.nocase = true;
    let p = parse("[a]", &o).unwrap();
    match &p.nodes[0] {
        Node::Class(c) => {
            assert!(c.contains(b'a'));
            assert!(c.contains(b'A'));
        },
        _ => panic!("expected a class"),
    }
}

#[test]
fn parse_error_too_long() {
    let mut o = opts();
    o.max_length = 3;
    let e = parse("abcd", &o).unwrap_err();
    assert_eq!(e.message, "pattern exceeds max length");
    assert_eq!(e.position, 0);
}

#[test]
fn parse_error_unterminated_extglob() {
    let e = parse("*(a", &opts()).unwrap_err();
    assert_eq!(e.message, "unterminated extglob");
    assert_eq!(e.position, 3);
}

#[test]
fn parse_error_unterminated_class() {
    let e = parse("[a-", &opts()).unwrap_err();
    assert_eq!(e.message, "unterminated class");
    assert_eq!(e.position, 3);
}

#[test]
fn parse_error_brace_depth() {
    let mut o = opts();
    o.max_brace_depth = 0;
    let e = parse("x{a,b}", &o).unwrap_err();
    assert_eq!(e.message, "max brace depth exceeded");
    assert_eq!(e.position, 1);
}

#[test]
fn parse_error_malformed_class_name() {
    let e = parse("[[:]", &opts()).unwrap_err();
    assert_eq!(e.message, "malformed class name");
    assert_eq!(e.position, 1);
}

#[test]
fn leading_bangs_only_negate() {
    let mut off = opts();
    off.nonegate = true;
    for (pat, k) in [("!!a/*", 2usize), ("!a{b,c}", 1), ("!!!x?", 3), ("b!", 0)] {
        let full = parse(pat, &opts()).unwrap();
        let rest = parse(&pat[k..], &off).unwrap();
        assert_eq!(full.negated, k % 2 == 1);
        assert!(!rest.negated);
        assert_eq!(format!("{:?}", full.nodes), format!("{:?}", rest.nodes));
    }
    assert!(!parse("!a", &off).unwrap().negated);
    let ext = parse("!(a)", &opts()).unwrap();
    assert!(!ext.negated);
    assert_eq!(ext.nodes.len(), 1);
}
