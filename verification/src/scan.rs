use vstd::prelude::*;
use vstd::string::StringSliceAdditionalSpecFns;
use crate::options::{sep_spec, MatchOptions};
use crate::parse::{bang_run, byte_at, neg_end};
use crate::search::find_byte;
use vstd::utf8::{
    encode_utf8, encode_utf8_valid_utf8, is_char_boundary, is_char_boundary_iff_is_leading_byte,
    is_char_boundary_iff_not_is_continuation_byte, is_char_boundary_start_end_of_seq,
    length_of_first_scalar, pop_first_scalar, valid_utf8, valid_utf8_split,
};

verus! {

/// In valid UTF-8, the index after an ASCII byte that starts a character is a character
/// boundary too.
proof fn lemma_boundary_after_ascii(b: Seq<u8>, k: int)
    requires
        valid_utf8(b),
        0 <= k < b.len(),
        is_char_boundary(b, k),
        b[k] <= 0x7fu8,
    ensures
        is_char_boundary(b, k + 1),
    decreases b.len(),
{
    let l = length_of_first_scalar(b);
    let rest = pop_first_scalar(b);
    assert(valid_utf8(rest));
    if k == 0 {
        assert(l == 1);
        assert(is_char_boundary(rest, 0));
    } else {
        assert(is_char_boundary(b, k) == is_char_boundary(rest, k - l));
        assert(k - l >= 0);
        assert(rest[k - l] == b[k]);
        lemma_boundary_after_ascii(rest, k - l);
        assert(is_char_boundary(b, k + 1) == is_char_boundary(rest, k + 1 - l));
    }
}

/// An ASCII byte of valid UTF-8 starts a character.
proof fn lemma_boundary_at_ascii(b: Seq<u8>, k: int)
    requires
        valid_utf8(b),
        0 <= k < b.len(),
        b[k] <= 0x7fu8,
    ensures
        is_char_boundary(b, k),
{
    is_char_boundary_iff_is_leading_byte(b, k);
}

/// A character boundary of `b` before `hi`, itself a boundary, is a boundary of `b[..hi]`.
proof fn lemma_prefix_boundary(b: Seq<u8>, lo: int, hi: int)
    requires
        valid_utf8(b),
        0 <= lo <= hi <= b.len(),
        is_char_boundary(b, lo),
        is_char_boundary(b, hi),
    ensures
        valid_utf8(b.subrange(0, hi)),
        is_char_boundary(b.subrange(0, hi), lo),
{
    valid_utf8_split(b, hi);
    let p = b.subrange(0, hi);
    if lo == hi {
        is_char_boundary_start_end_of_seq(p);
    } else {
        is_char_boundary_iff_not_is_continuation_byte(b, lo);
        is_char_boundary_iff_not_is_continuation_byte(p, lo);
    }
}

/// The text of `s` between the character boundaries `lo` and `hi`.
fn substring(s: &str, lo: usize, hi: usize) -> (r: String)
    requires
        lo <= hi <= s.spec_bytes().len(),
        is_char_boundary(s.spec_bytes(), lo as int),
        is_char_boundary(s.spec_bytes(), hi as int),
    ensures
        encode_utf8(r@) == s.spec_bytes().subrange(lo as int, hi as int),
{
    proof {
        encode_utf8_valid_utf8(s@);
        lemma_prefix_boundary(s.spec_bytes(), lo as int, hi as int);
    }
    let (left, _) = s.split_at(hi);
    let (_, mid) = left.split_at(lo);
    let r = mid.to_owned();
    proof {
        assert(mid.spec_bytes() =~= s.spec_bytes().subrange(lo as int, hi as int));
    }
    r
}

/// What `scan` reports of a pattern.
#[derive(Clone, Debug)]
pub struct ScanResult {
    pub prefix: String,
    pub base: String,
    pub glob: String,
    pub is_brace: bool,
    pub is_bracket: bool,
    pub is_glob: bool,
    pub is_extglob: bool,
    pub is_globstar: bool,
    pub negated: bool,
    pub negated_extglob: bool,
}

/// Where the walk over a pattern stops, and what it saw.
pub struct Walk {
    pub last_sep: int,
    pub is_glob: bool,
    pub is_brace: bool,
    pub is_bracket: bool,
    pub is_extglob: bool,
    pub is_globstar: bool,
    pub negated_extglob: bool,
}

pub open spec fn walk_end(last_sep: int) -> Walk {
    Walk {
        last_sep,
        is_glob: false,
        is_brace: false,
        is_bracket: false,
        is_extglob: false,
        is_globstar: false,
        negated_extglob: false,
    }
}

/// A `]` occurs at or after `i`.
pub open spec fn closes_at_or_after(b: Seq<u8>, i: int) -> bool {
    exists|j: int| i <= j < b.len() && b[j] == 93u8
}

/// Whether a `]` occurs at or after `i`.
fn closes_after(bytes: &[u8], i: usize) -> (r: bool)
    requires
        i <= bytes@.len(),
    ensures
        r == closes_at_or_after(bytes@, i as int),
{
    let len = bytes.len();
    let found = find_byte(93u8, &bytes[i..len]);
    proof {
        let h = bytes@.subrange(i as int, len as int);
        match found {
            Some(j) => {
                assert(bytes@[i + j] == h[j as int]);
            },
            None => {
                assert forall|j: int| i <= j < bytes@.len() implies bytes@[j] != 93u8 by {
                    assert(h[j - i] == bytes@[j]);
                }
            },
        }
    }
    found.is_some()
}

/// Walks the pattern from `i` (escapes skip the next byte), recording the last separator,
/// up to the first byte that makes it a glob; `start` is where the pattern proper starts.
pub open spec fn walk(b: Seq<u8>, o: MatchOptions, start: int, i: int, last_sep: int) -> Walk
    decreases b.len() + 2 - i,
{
    if i < 0 || i >= b.len() {
        walk_end(last_sep)
    } else {
        let c = b[i];
        let w = walk_end(last_sep);
        if c == 92u8 {
            walk(b, o, start, i + 2, last_sep)
        } else if sep_spec(o.mode, c) {
            walk(b, o, start, i + 1, i)
        } else if c == 63u8 || c == 42u8 {
            Walk { is_glob: true, is_globstar: c == 42u8 && byte_at(b, i + 1) == Some(42u8), ..w }
        } else if c == 91u8 && closes_at_or_after(b, i) {
            Walk { is_glob: true, is_bracket: true, ..w }
        } else if c == 123u8 {
            Walk { is_glob: true, is_brace: true, ..w }
        } else if (c == 64u8 || c == 43u8 || c == 33u8 || c == 41u8) && byte_at(b, i + 1) == Some(
            40u8,
        ) {
            Walk { is_glob: true, is_extglob: true, negated_extglob: c == 33u8 && i == start, ..w }
        } else {
            walk(b, o, start, i + 1, last_sep)
        }
    }
}

/// A `./` (or `.\\` where that separates) right after the negations.
pub open spec fn dot_prefix(b: Seq<u8>, o: MatchOptions) -> bool {
    let s0 = neg_end(b, o);
    byte_at(b, s0) == Some(46u8) && s0 + 1 < b.len() && sep_spec(o.mode, b[s0 + 1])
}

/// Where the pattern proper starts: after the negations and a `./`.
pub open spec fn scan_start(b: Seq<u8>, o: MatchOptions) -> int {
    if dot_prefix(b, o) {
        neg_end(b, o) + 2
    } else {
        neg_end(b, o)
    }
}

/// `r` is what `scan` reports of the pattern bytes `b`.
pub open spec fn scan_spec(b: Seq<u8>, o: MatchOptions, r: ScanResult) -> bool {
    let s0 = neg_end(b, o);
    let start = scan_start(b, o);
    let w = walk(b, o, start, start, 0);
    let n = b.len() as int;
    &&& r.negated == (s0 % 2 == 1)
    &&& encode_utf8(r.prefix@) == (if dot_prefix(b, o) {
        b.subrange(s0, s0 + 2)
    } else {
        Seq::empty()
    })
    &&& r.is_glob == w.is_glob
    &&& r.is_brace == w.is_brace
    &&& r.is_bracket == w.is_bracket
    &&& r.is_extglob == w.is_extglob
    &&& r.is_globstar == w.is_globstar
    &&& r.negated_extglob == w.negated_extglob
    &&& if w.is_glob && w.last_sep > start {
        &&& encode_utf8(r.base@) == b.subrange(start, w.last_sep)
        &&& encode_utf8(r.glob@) == b.subrange(w.last_sep + 1, n)
    } else if w.is_glob {
        &&& encode_utf8(r.base@) == Seq::<u8>::empty()
        &&& encode_utf8(r.glob@) == b.subrange(start, n)
    } else {
        &&& encode_utf8(r.base@) == b.subrange(start, n)
        &&& encode_utf8(r.glob@) == Seq::<u8>::empty()
    }
}

/// Splits a pattern into its literal base directory and its glob part, with flags for
/// the glob features it uses.
pub fn scan(input: &str, opts: &MatchOptions) -> (r: ScanResult)
    ensures
        scan_spec(input.spec_bytes(), *opts, r),
{
    let bytes = input.as_bytes();
    let ghost b = bytes@;
    proof {
        encode_utf8_valid_utf8(input@);
        is_char_boundary_start_end_of_seq(b);
    }
    let len = bytes.len();
    let mut i: usize = 0;
    let mut start: usize = 0;
    let mut negated = false;
    let mut negated_extglob = false;
    let mut is_glob = false;
    let mut is_brace = false;
    let mut is_bracket = false;
    let mut is_extglob = false;
    let mut is_globstar = false;
    let mut prefix = String::new();
    if !opts.nonegate {
        while i < len && bytes[i] == 33u8 && !(i + 1 < len && bytes[i + 1] == 40u8)
            invariant
                b == bytes@,
                b == input.spec_bytes(),
                len == b.len(),
                valid_utf8(b),
                i <= len,
                start == i,
                is_char_boundary(b, i as int),
                bang_run(b, i as int) == bang_run(b, 0),
                negated == (i % 2 == 1),
            decreases len - i,
        {
            proof {
                lemma_boundary_after_ascii(b, i as int);
            }
            negated = !negated;
            i = i + 1;
            start = i;
        }
    }
    assert(start == neg_end(b, *opts));
    if i < len && bytes[i] == 46u8 && i + 1 < len && opts.mode.is_sep(bytes[i + 1]) {
        proof {
            lemma_boundary_after_ascii(b, i as int);
            lemma_boundary_after_ascii(b, i + 1);
        }
        prefix = substring(input, i, i + 2);
        i = i + 2;
        start = i;
    }
    assert(start == scan_start(b, *opts));
    let ghost w = walk(b, *opts, start as int, start as int, 0);
    let mut last_sep: usize = 0;
    while i < len
        invariant_except_break
            walk(b, *opts, start as int, i as int, last_sep as int) == w,
            !is_glob && !is_brace && !is_bracket && !is_extglob && !is_globstar && !negated_extglob,
        invariant
            b == bytes@,
            len == b.len(),
            valid_utf8(b),
            start <= i <= len,
            start == scan_start(b, *opts),
            is_char_boundary(b, start as int),
            last_sep == 0 || (last_sep < len && sep_spec(opts.mode, b[last_sep as int])),
            w == walk(b, *opts, start as int, start as int, 0),
        ensures
            w.last_sep == last_sep,
            w.is_glob == is_glob,
            w.is_brace == is_brace,
            w.is_bracket == is_bracket,
            w.is_extglob == is_extglob,
            w.is_globstar == is_globstar,
            w.negated_extglob == negated_extglob,
            last_sep == 0 || (last_sep < len && sep_spec(opts.mode, b[last_sep as int])),
            start <= i <= len,
            valid_utf8(b),
        decreases len - i,
    {
        let c = bytes[i];
        if c == 92u8 {
            if i + 1 < len {
                i = i + 2;
            } else {
                assert(walk(b, *opts, start as int, i + 2, last_sep as int) == walk_end(last_sep as int));
                i = len;
            }
            assert(walk(b, *opts, start as int, i as int, last_sep as int) == w);
        } else if opts.mode.is_sep(c) {
            last_sep = i;
            i = i + 1;
            assert(walk(b, *opts, start as int, i as int, last_sep as int) == w);
        } else if c == 63u8 || c == 42u8 {
            is_glob = true;
            if c == 42u8 && i + 1 < len && bytes[i + 1] == 42u8 {
                is_globstar = true;
            }
            break;
        } else if c == 91u8 && closes_after(bytes, i) {
            is_bracket = true;
            is_glob = true;
            break;
        } else if c == 123u8 {
            is_brace = true;
            is_glob = true;
            break;
        } else if (c == 64u8 || c == 43u8 || c == 33u8 || c == 41u8) && i + 1 < len && bytes[i + 1]
            == 40u8 {
            is_extglob = true;
            is_glob = true;
            if c == 33u8 && i == start {
                negated_extglob = true;
            }
            break;
        } else {
            i = i + 1;
        }
    }
    let base;
    let glob;
    if is_glob && last_sep > start {
        proof {
            lemma_boundary_at_ascii(b, last_sep as int);
            lemma_boundary_after_ascii(b, last_sep as int);
        }
        base = substring(input, start, last_sep);
        glob = substring(input, last_sep + 1, len);
    } else if is_glob {
        base = String::new();
        glob = substring(input, start, len);
    } else {
        base = substring(input, start, len);
        glob = String::new();
    }
    ScanResult {
        prefix,
        base,
        glob,
        is_brace,
        is_bracket,
        is_glob,
        is_extglob,
        is_globstar,
        negated,
        negated_extglob,
    }
}

} // verus!
