use zeromatch::search::{basename, contains_sep, eq_lowered, last_seg_start, memmem_nocase};
use zeromatch::options::Mode;
use zeromatch::util::{ascii_lower, pack_le, posix_class, ByteClass};

#[test]
fn byte_class_operations() {
    let mut c = ByteClass::empty();
    c.set(b'x');
    c.add_range(b'c', b'a');
    assert!(c.contains(b'x'));
    assert!(c.contains(b'b'));
    assert!(!c.contains(b'd'));
    c.fold_ascii_case();
    assert!(c.contains(b'B'));
    c.negate();
    assert!(!c.contains(b'b'));
    assert!(c.contains(b'd'));
    c.remove(b'd');
    assert!(!c.contains(b'd'));
}

#[test]
fn posix_classes() {
    let alpha = posix_class(b"alpha").unwrap();
    assert!(alpha.contains(b'q'));
    assert!(!alpha.contains(b'1'));
    assert!(posix_class(b"nope").is_none());
    let x = posix_class(b"xdigit").unwrap();
    assert!(x.contains(b'F'));
    assert!(!x.contains(b'g'));
}

#[test]
fn ascii_lowering_and_packing() {
    assert_eq!(ascii_lower(b'Q'), b'q');
    assert_eq!(ascii_lower(b'['), b'[');
    assert_eq!(pack_le(b".ts"), 0x73742e);
    assert_eq!(pack_le(b""), 0);
}

#[test]
fn path_helpers() {
    assert_eq!(basename(b"a/b/c.js", Mode::Posix), b"c.js");
    assert_eq!(basename(b"a\\c.js", Mode::Windows), b"c.js");
    assert_eq!(basename(b"a\\c.js", Mode::Posix), b"a\\c.js");
    assert_eq!(last_seg_start(b"ab/cd", Mode::Posix), 3);
    assert!(contains_sep(b"a/b", Mode::Posix));
    assert!(!contains_sep(b"ab", Mode::Posix));
}

#[test]
fn case_folding_search() {
    assert!(eq_lowered(b"AbC", b"abc"));
    assert!(!eq_lowered(b"AbD", b"abc"));
    assert!(memmem_nocase(b"xxHELLOyy", b"hello"));
    assert!(!memmem_nocase(b"xxHELLyy", b"hello"));
}
