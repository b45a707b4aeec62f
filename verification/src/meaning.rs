use vstd::prelude::*;

use crate::ast::ExtKind;
use crate::compile::{Instr, Program};
use crate::options::{sep_spec, MatchOptions};
use crate::vm::{adv, alt_run, first_alt, neg_hit, run};
use crate::api::{native_options, JsMatchOptions};
use crate::ast::SNode;
use crate::compile::{compiled_ok, CompiledGlob};
use crate::lang::{glob_lang, law_matcher_decides_glob_lang, lemma_star_some, plain_nodes};
use crate::matcher::matches_spec;
use crate::options::Mode;
use crate::parse::{flush, pattern_spec, seq_spec, star_run, PRes, Stop};
use crate::search::{has_sep, lemma_seg_start, seg_end, seg_start};
use crate::scan::{scan_spec, walk, walk_end, ScanResult};
use vstd::utf8::{
    decode_first_scalar, decode_utf8, encode_utf8, pop_first_scalar, valid_first_scalar, valid_utf8,
};
use crate::regex_emit::{ascii_bytes, re_byte, re_bytes, re_chars, re_lit, re_node, re_source, re_special, re_special_char, re_seq};
use crate::parse::{byte_at, class_loop, class_spec, ClassRes};
use crate::shift::lemma_class_loop_shift;

verus! {

// What single pattern elements stand for, stated over inputs and results.

/// A bracket expression opened by `[^` is the one opened by `[!`, and both stand for every
/// byte that is not a separator and that the bracket expression without the negation does
/// not list.
pub proof fn law_caret_negates_class(x: Seq<u8>, o: MatchOptions)
    requires
        byte_at(x, 0) != Some(33u8),
        byte_at(x, 0) != Some(94u8),
    ensures
        class_spec(seq![91u8, 94u8] + x, o, 0) == class_spec(seq![91u8, 33u8] + x, o, 0),
        match (class_spec(seq![91u8, 94u8] + x, o, 0), class_spec(seq![91u8] + x, o, 0)) {
            (ClassRes::Found(m, q), ClassRes::Found(m2, q2)) => q == q2 + 1 && forall|c: u8|
                #[trigger] m.contains(c) == (!m2.contains(c) && !sep_spec(o.mode, c)),
            (ClassRes::Found(m, q), _) => false,
            (_, ClassRes::Found(m2, q2)) => false,
            (r1, r2) => r1 is NotFound && r2 is NotFound || (r1 matches ClassRes::Error(k1, p1) && r2 matches ClassRes::Error(
                k2,
                p2,
            ) && k1 == k2 && p1 == p2 + 1),
        },
{
    let caret = seq![91u8, 94u8];
    let bang = seq![91u8, 33u8];
    let open = seq![91u8];
    lemma_class_loop_shift(caret, x, 0, Set::empty(), true);
    lemma_class_loop_shift(bang, x, 0, Set::empty(), true);
    lemma_class_loop_shift(open, x, 0, Set::empty(), true);
    assert(byte_at(caret + x, 1) == Some(94u8));
    assert(byte_at(bang + x, 1) == Some(33u8));
    assert(byte_at(open + x, 1) == byte_at(x, 0));
    assert(class_loop(caret + x, 2int, Set::empty(), true) == class_loop(bang + x, 2int, Set::empty(), true));
}

/// No alternative `k..b` of the group at `pc` matches from `x`, so the first of them that
/// matches is none.
proof fn lemma_first_alt_none(
    p: Program,
    o: MatchOptions,
    s: Seq<u8>,
    pc: int,
    end: int,
    b: int,
    e: int,
    x: int,
    at: bool,
    k: int,
)
    requires
        forall|j: int| k <= j < b ==> #[trigger] alt_run(p, o, s, pc, end, e, j, x, at) is None,
    ensures
        first_alt(p, o, s, pc, end, b, e, x, at, k) is None,
    decreases b - k,
{
    if 0 <= k < b {
        assert(alt_run(p, o, s, pc, end, e, k, x, at) is None);
        lemma_first_alt_none(p, o, s, pc, end, b, e, x, at, k + 1);
    }
}

/// Where no alternative matches from `x`, none advances from it either, and none ends
/// anywhere.
proof fn lemma_no_alt_anywhere(
    p: Program,
    o: MatchOptions,
    s: Seq<u8>,
    pc: int,
    end: int,
    b: int,
    e: int,
    x: int,
    at: bool,
    hi: int,
    k: int,
)
    requires
        forall|j: int| k <= j < b ==> #[trigger] alt_run(p, o, s, pc, end, e, j, x, at) is None,
    ensures
        adv(p, o, s, pc, end, b, e, x, at, x, k) is None,
        !neg_hit(p, o, s, pc, end, b, e, x, at, hi, k),
    decreases b - k,
{
    if 0 <= k < b {
        assert(alt_run(p, o, s, pc, end, e, k, x, at) is None);
        assert(at && x == x <==> at);
        lemma_no_alt_anywhere(p, o, s, pc, end, b, e, x, at, hi, k + 1);
    }
}

/// An extended-glob group none of whose alternatives matches where the group starts:
/// `?(..)` and `*(..)` stand for the empty string there, so the match goes on after the
/// group from the same index; `@(..)` and `+(..)`, which need one occurrence, fail; `!(..)`
/// takes the rest of the path segment.
pub proof fn law_extglob_group_without_a_match(
    p: Program,
    o: MatchOptions,
    s: Seq<u8>,
    pc: int,
    pi: int,
    end: int,
    at: bool,
    kind: ExtKind,
    a: u32,
    b: u32,
    e: u32,
)
    requires
        0 <= pc < e <= end,
        pc < p.code@.len(),
        p.code@[pc] == (Instr::ExtglobOpen { kind: kind, alts: (a, b), end: e }),
        0 <= pi <= s.len(),
        forall|k: int| a <= k < b ==> #[trigger] alt_run(p, o, s, pc, end, e as int, k, pi, at) is None,
    ensures
        kind == ExtKind::Optional || kind == ExtKind::Star ==> run(p, o, s, pc, pi, end, at) == run(
            p,
            o,
            s,
            e as int,
            pi,
            end,
            false,
        ),
        kind == ExtKind::At || kind == ExtKind::Plus ==> run(p, o, s, pc, pi, end, at) is None,
        kind == ExtKind::Negate ==> run(p, o, s, pc, pi, end, at) == run(
            p,
            o,
            s,
            e as int,
            seg_end(s, o.mode, pi),
            end,
            false,
        ),
{
    lemma_first_alt_none(p, o, s, pc, end, b as int, e as int, pi, at, a as int);
    lemma_no_alt_anywhere(p, o, s, pc, end, b as int, e as int, pi, at, seg_end(s, o.mode, pi), a as int);
    let r = crate::vm::ext_spec(p, o, s, pc, end, kind, a as int, b as int, e as int, pi, at);
    if kind == ExtKind::Star {
        assert(r == Some(pi));
    } else if kind == ExtKind::Plus {
        assert(r is None);
    } else if kind == ExtKind::Negate {
        assert(r == Some(seg_end(s, o.mode, pi)));
    }
}

/// An optional extended glob `?(..)` also stands for the empty string: where none of its
/// alternatives matches, the match goes on after the group from the same index, as if the
/// group were not there.
pub proof fn law_optional_group_may_be_empty(
    p: Program,
    o: MatchOptions,
    s: Seq<u8>,
    pc: int,
    pi: int,
    end: int,
    at: bool,
    a: u32,
    b: u32,
    e: u32,
)
    requires
        0 <= pc < e <= end,
        pc < p.code@.len(),
        p.code@[pc] == (Instr::ExtglobOpen { kind: ExtKind::Optional, alts: (a, b), end: e }),
        0 <= pi <= s.len(),
        forall|k: int| a <= k < b ==> #[trigger] alt_run(p, o, s, pc, end, e as int, k, pi, at) is None,
    ensures
        run(p, o, s, pc, pi, end, at) == run(p, o, s, e as int, pi, end, false),
{
    lemma_first_alt_none(p, o, s, pc, end, b as int, e as int, pi, at, a as int);
    assert(crate::vm::ext_spec(p, o, s, pc, end, ExtKind::Optional, a as int, b as int, e as int, pi, at) == Some(pi));
}

/// Every flag a caller sets reaches the options the library works with: a flag is on
/// exactly when the caller set it to true, `windows` picks the Windows separators, and the
/// brace depth defaults to 10 and is capped at 255.
pub proof fn law_caller_options_reach_matcher(j: JsMatchOptions)
    ensures
        native_options(j).dot == (j.dot == Some(true)),
        native_options(j).nocase == (j.nocase == Some(true)),
        (native_options(j).mode == Mode::Windows) == (j.windows == Some(true)),
        native_options(j).contains == (j.contains == Some(true)),
        native_options(j).match_base == (j.match_base == Some(true)),
        native_options(j).nobrace == (j.nobrace == Some(true)),
        native_options(j).nobracket == (j.nobracket == Some(true)),
        native_options(j).noextglob == (j.noextglob == Some(true)),
        native_options(j).noglobstar == (j.noglobstar == Some(true)),
        native_options(j).nonegate == (j.nonegate == Some(true)),
        native_options(j).strict_slashes == (j.strict_slashes == Some(true)),
        j.max_brace_depth is None ==> native_options(j).max_brace_depth == 10,
        j.max_brace_depth matches Some(v) ==> native_options(j).max_brace_depth == if v < 255 {
            v
        } else {
            255
        },
{
}

/// With `noglobstar`, `**` is a plain `*`: it parses to one star.
proof fn lemma_double_star_is_star(o: MatchOptions)
    requires
        o.noglobstar,
        2 <= o.max_length,
    ensures
        pattern_spec(seq![42u8, 42u8], o) == crate::parse::PRes::Done((false, seq![SNode::Star]), 2),
{
    let b = seq![42u8, 42u8];
    assert(crate::parse::neg_end(b, o) == 0);
    assert(star_run(b, 2) == 2);
    assert(star_run(b, 1) == 2);
    assert(seq_spec(b, o, 2, Stop::Eof, Seq::empty(), seq![SNode::Star]) == crate::parse::PRes::Done(
        seq![SNode::Star],
        2,
    ));
    assert(crate::parse::flush(Seq::empty(), Seq::<SNode>::empty()).push(SNode::Star) == seq![SNode::Star]);
}

/// A star denotes no string with a separator.
proof fn lemma_star_has_no_sep(o: MatchOptions, x: Seq<u8>, at: bool)
    requires
        has_sep(x, o.mode),
    ensures
        !glob_lang(seq![SNode::Star], o, x, 0, at),
{
    let ns = seq![SNode::Star];
    let rest = ns.subrange(1, 1);
    assert(rest =~= Seq::<SNode>::empty());
    let w = choose|i: int| 0 <= i < x.len() && sep_spec(o.mode, #[trigger] x[i]);
    assert(x.len() > 0);
    assert(!glob_lang(rest, o, x, 0, at));
    lemma_star_some(rest, o, x, 0, x.len() as int);
    assert(ns[0] == SNode::Star);
    assert(glob_lang(ns, o, x, 0, at) == (glob_lang(rest, o, x, 0, at) || (0 < x.len() && crate::lang::dot_ok(
        o,
        x,
        0,
        at,
    ) && crate::lang::star_some(rest, o, x, 0, x.len() as int))));
    if crate::lang::star_some(rest, o, x, 0, x.len() as int) {
        let k = choose|k: int| 0 < k <= x.len() && !has_sep(x.subrange(0, k), o.mode) && #[trigger] glob_lang(rest, o, x, k, false);
        assert(k == x.len());
        assert(x.subrange(0, k)[w] == x[w]);
    }
}

/// With `noglobstar` set by the caller, `**` stays within one segment: where neither basename
/// nor substring matching is asked for, it matches no path with a separator.
pub proof fn law_noglobstar_keeps_stars_in_a_segment(j: JsMatchOptions, g: CompiledGlob, x: Seq<u8>)
    requires
        j.noglobstar == Some(true),
        j.contains != Some(true),
        j.match_base != Some(true),
        compiled_ok(seq![42u8, 42u8], native_options(j), Ok(g)),
        has_sep(x, native_options(j).mode),
    ensures
        !matches_spec(g.program, g.opts, x),
{
    let o = native_options(j);
    let b = seq![42u8, 42u8];
    if o.max_length < 2 {
        assert(pattern_spec(b, o) is Fail);
    }
    lemma_double_star_is_star(o);
    assert(plain_nodes(seq![SNode::Star], o)) by {
        assert forall|k: int| 0 <= k < 1 - 1 && #[trigger] crate::lang::starry(seq![SNode::Star][k]) implies !crate::lang::starry(seq![SNode::Star][k + 1]) by {
        }
    }
    law_matcher_decides_glob_lang(b, o, g, x);
    lemma_star_has_no_sep(o, x, true);
}

/// A byte that the scan of a pattern passes over: no escape, wildcard, bracket, brace or
/// extended-glob opener.
pub open spec fn quiet_byte(c: u8) -> bool {
    c != 92u8 && c != 63u8 && c != 42u8 && c != 91u8 && c != 123u8 && c != 64u8 && c != 43u8 && c != 33u8
        && c != 41u8
}

/// The last separator of `b[..xl]` at or after `i`, or `ls` when there is none.
spec fn last_sep_from(b: Seq<u8>, o: MatchOptions, xl: int, i: int, ls: int) -> int {
    if seg_start(b, o.mode, xl) > i {
        seg_start(b, o.mode, xl) - 1
    } else {
        ls
    }
}

/// Over quiet bytes the walk only records where the last separator is.
proof fn lemma_walk_quiet(b: Seq<u8>, o: MatchOptions, xl: int, i: int, ls: int)
    requires
        0 <= i <= xl <= b.len(),
        forall|k: int| 0 <= k < xl ==> quiet_byte(#[trigger] b[k]),
    ensures
        walk(b, o, 0, i, ls) == walk(b, o, 0, xl, last_sep_from(b, o, xl, i, ls)),
    decreases xl - i,
{
    lemma_seg_start(b, o.mode, xl);
    let ss = seg_start(b, o.mode, xl);
    if i < xl {
        assert(quiet_byte(b[i]));
        if sep_spec(o.mode, b[i]) {
            lemma_walk_quiet(b, o, xl, i + 1, i);
            assert(ss >= i + 1);
        } else {
            lemma_walk_quiet(b, o, xl, i + 1, ls);
            if ss == i + 1 {
                assert(sep_spec(o.mode, b[ss - 1]));
            }
        }
    }
}

/// A byte `c`, followed by `y`, that opens a glob: a wildcard, a brace, a bracket that a later
/// `]` closes, or `@`, `+`, `!` or `)` right before `(`.
pub open spec fn opens_glob(c: u8, y: Seq<u8>) -> bool {
    ||| c == 63u8 || c == 42u8
    ||| c == 123u8
    ||| c == 91u8 && y.contains(93u8)
    ||| (c == 64u8 || c == 43u8 || c == 33u8 || c == 41u8) && y.len() > 0 && y[0] == 40u8
}

/// The scan of a pattern that starts with quiet bytes `x` and then has a glob opener `c`
/// reports a glob of the kind `c` opens, whose base is the directory `x` ends in (up to its
/// last separator, when that is not the first byte) and whose glob part is the rest.
pub proof fn law_scan_reports_first_glob_opener(
    x: Seq<u8>,
    c: u8,
    y: Seq<u8>,
    o: MatchOptions,
    r: ScanResult,
)
    requires
        opens_glob(c, y),
        forall|k: int| 0 <= k < x.len() ==> quiet_byte(#[trigger] x[k]),
        !(x.len() >= 2 && x[0] == 46u8 && sep_spec(o.mode, x[1])),
        scan_spec(x + seq![c] + y, o, r),
    ensures
        r.is_glob,
        r.is_brace == (c == 123u8),
        r.is_bracket == (c == 91u8),
        r.is_extglob == (c == 64u8 || c == 43u8 || c == 33u8 || c == 41u8),
        r.is_globstar == (c == 42u8 && y.len() > 0 && y[0] == 42u8),
        r.negated_extglob == (c == 33u8 && x.len() == 0),
        !r.negated,
        seg_start(x, o.mode, x.len() as int) >= 2 ==> encode_utf8(r.base@) == x.subrange(
            0,
            seg_start(x, o.mode, x.len() as int) - 1,
        ) && encode_utf8(r.glob@) == x.subrange(seg_start(x, o.mode, x.len() as int), x.len() as int) + seq![c]
            + y,
        seg_start(x, o.mode, x.len() as int) < 2 ==> encode_utf8(r.base@) == Seq::<u8>::empty() && encode_utf8(
            r.glob@,
        ) == x + seq![c] + y,
{
    let b = x + seq![c] + y;
    let xl = x.len() as int;
    assert forall|k: int| 0 <= k < xl implies quiet_byte(#[trigger] b[k]) by {
        assert(b[k] == x[k]);
    }
    assert(b[xl] == c);
    assert(forall|k: int| 0 <= k < y.len() ==> b[xl + 1 + k] == y[k]);
    if xl > 0 {
        assert(b[0] != 33u8);
    } else if c == 33u8 {
        assert(byte_at(b, 1) == Some(40u8));
    }
    assert(crate::parse::bang_run(b, 0) == 0);
    assert(crate::parse::neg_end(b, o) == 0);
    assert(!crate::scan::dot_prefix(b, o));
    assert(crate::scan::scan_start(b, o) == 0);
    if c == 91u8 {
        let j = choose|j: int| 0 <= j < y.len() && y[j] == 93u8;
        assert(b[xl + 1 + j] == 93u8);
        assert(crate::scan::closes_at_or_after(b, xl));
    }
    if y.len() > 0 {
        assert(byte_at(b, xl + 1) == Some(y[0]));
    } else {
        assert(byte_at(b, xl + 1) is None);
    }
    lemma_walk_quiet(b, o, xl, 0, 0);
    assert(b.subrange(0, xl) =~= x);
    assert forall|n: int| 0 <= n <= xl implies seg_start(b, o.mode, n) == seg_start(x, o.mode, n) by {
        lemma_seg_start_prefix(b, x, o, n);
    }
    let ss = seg_start(x, o.mode, xl);
    lemma_seg_start(x, o.mode, xl);
    if ss >= 2 {
        assert(b.subrange(0, ss - 1) =~= x.subrange(0, ss - 1));
        assert(b.subrange(ss, b.len() as int) =~= x.subrange(ss, xl) + seq![c] + y);
    } else {
        assert(b.subrange(0, b.len() as int) =~= b);
    }
}

/// `seg_start` reads only the bytes before `n`.
proof fn lemma_seg_start_prefix(b: Seq<u8>, x: Seq<u8>, o: MatchOptions, n: int)
    requires
        0 <= n <= x.len() <= b.len(),
        forall|k: int| 0 <= k < x.len() ==> b[k] == x[k],
    ensures
        seg_start(b, o.mode, n) == seg_start(x, o.mode, n),
    decreases n,
{
    if n > 0 {
        lemma_seg_start_prefix(b, x, o, n - 1);
    }
}

/// A pattern of quiet bytes only, not starting with `./`, is no glob: the scan reports it
/// whole as its base.
pub proof fn law_scan_plain_is_no_glob(b: Seq<u8>, o: MatchOptions, r: ScanResult)
    requires
        forall|k: int| 0 <= k < b.len() ==> quiet_byte(#[trigger] b[k]),
        !(b.len() >= 2 && b[0] == 46u8 && sep_spec(o.mode, b[1])),
        scan_spec(b, o, r),
    ensures
        !r.is_glob,
        encode_utf8(r.base@) == b,
        encode_utf8(r.glob@) == Seq::<u8>::empty(),
{
    let n = b.len() as int;
    if n > 0 {
        assert(b[0] != 33u8);
    }
    assert(crate::parse::neg_end(b, o) == 0);
    assert(crate::scan::scan_start(b, o) == 0);
    lemma_walk_quiet(b, o, n, 0, 0);
    assert(b.subrange(0, n) =~= b);
}


// What regular-expression text a literal becomes.

/// The characters that have a meaning of their own in a regular expression.
pub open spec fn regex_meta(c: char) -> bool {
    c == '.' || c == '^' || c == '$' || c == '+' || c == '*' || c == '?' || c == '(' || c == ')'
        || c == '[' || c == ']' || c == '{' || c == '}' || c == '|' || c == '\\'
}

/// The one string that regular-expression text matches when it is made of plain characters
/// and backslash-escaped metacharacters only; `None` where a metacharacter stands unescaped
/// or a backslash escapes anything else.
pub open spec fn regex_literal(t: Seq<char>) -> Option<Seq<char>>
    decreases t.len(),
{
    if t.len() == 0 {
        Some(Seq::empty())
    } else if t[0] == '\\' {
        if t.len() >= 2 && regex_meta(t[1]) {
            match regex_literal(t.subrange(2, t.len() as int)) {
                Some(r) => Some(seq![t[1]] + r),
                None => None,
            }
        } else {
            None
        }
    } else if regex_meta(t[0]) {
        None
    } else {
        match regex_literal(t.subrange(1, t.len() as int)) {
            Some(r) => Some(seq![t[0]] + r),
            None => None,
        }
    }
}

/// Bytes read one character each.
pub open spec fn byte_chars(b: Seq<u8>) -> Seq<char> {
    Seq::new(b.len(), |i: int| b[i] as char)
}

proof fn lemma_regex_literal_concat(a: Seq<char>, b: Seq<char>, x: Seq<char>, y: Seq<char>)
    requires
        regex_literal(a) == Some(x),
        regex_literal(b) == Some(y),
    ensures
        regex_literal(a + b) == Some(x + y),
    decreases a.len(),
{
    if a.len() == 0 {
        assert(a + b =~= b);
        assert(x =~= Seq::<char>::empty());
        assert(x + y =~= y);
    } else if a[0] == '\\' {
        let r = regex_literal(a.subrange(2, a.len() as int)).unwrap();
        lemma_regex_literal_concat(a.subrange(2, a.len() as int), b, r, y);
        assert((a + b).subrange(2, (a + b).len() as int) =~= a.subrange(2, a.len() as int) + b);
        assert(x =~= seq![a[1]] + r);
        assert(seq![a[1]] + (r + y) =~= x + y);
    } else {
        let r = regex_literal(a.subrange(1, a.len() as int)).unwrap();
        lemma_regex_literal_concat(a.subrange(1, a.len() as int), b, r, y);
        assert((a + b).subrange(1, (a + b).len() as int) =~= a.subrange(1, a.len() as int) + b);
        assert(x =~= seq![a[0]] + r);
        assert(seq![a[0]] + (r + y) =~= x + y);
    }
}

proof fn lemma_one_char(c: char)
    ensures
        regex_literal(if regex_meta(c) { seq!['\\', c] } else { seq![c] }) == Some(seq![c]),
{
    let t = if regex_meta(c) { seq!['\\', c] } else { seq![c] };
    if regex_meta(c) {
        assert(t.subrange(2, 2) =~= Seq::<char>::empty());
        assert(regex_literal(t.subrange(2, 2)) == Some(Seq::<char>::empty()));
        assert(seq![c] + Seq::<char>::empty() =~= seq![c]);
    } else {
        assert(t.subrange(1, 1) =~= Seq::<char>::empty());
        assert(regex_literal(t.subrange(1, 1)) == Some(Seq::<char>::empty()));
        assert(seq![c] + Seq::<char>::empty() =~= seq![c]);
    }
}

proof fn lemma_meta_byte(c: u8)
    ensures
        re_special(c) == regex_meta(c as char),
        re_byte(c) == (if regex_meta(c as char) { seq!['\\', c as char] } else { seq![c as char] }),
{
    assert('.' as u32 == 46 && '^' as u32 == 94 && '$' as u32 == 36 && '+' as u32 == 43);
    assert('*' as u32 == 42 && '?' as u32 == 63 && '(' as u32 == 40 && ')' as u32 == 41);
    assert('[' as u32 == 91 && ']' as u32 == 93 && '{' as u32 == 123 && '}' as u32 == 125);
    assert('|' as u32 == 124 && '\\' as u32 == 92);
    assert((c as char) as u32 == c);
}

proof fn lemma_re_bytes_reads_back(b: Seq<u8>)
    ensures
        regex_literal(re_bytes(b)) == Some(byte_chars(b)),
    decreases b.len(),
{
    if b.len() == 0 {
        assert(byte_chars(b) =~= Seq::<char>::empty());
    } else {
        let init = b.subrange(0, b.len() - 1);
        let c = b[b.len() - 1];
        lemma_re_bytes_reads_back(init);
        lemma_meta_byte(c);
        lemma_one_char(c as char);
        lemma_regex_literal_concat(re_bytes(init), re_byte(c), byte_chars(init), seq![c as char]);
        assert(byte_chars(init) + seq![c as char] =~= byte_chars(b));
    }
}

proof fn lemma_re_chars_reads_back(cs: Seq<char>)
    ensures
        regex_literal(re_chars(cs)) == Some(cs),
    decreases cs.len(),
{
    if cs.len() > 0 {
        let c = cs.last();
        lemma_re_chars_reads_back(cs.drop_last());
        lemma_one_char(c);
        assert(re_special_char(c) == regex_meta(c));
        lemma_regex_literal_concat(
            re_chars(cs.drop_last()),
            if re_special_char(c) { seq!['\\', c] } else { seq![c] },
            cs.drop_last(),
            seq![c],
        );
        assert(cs.drop_last() + seq![c] =~= cs);
    }
}

proof fn lemma_ascii_decodes_bytewise(b: Seq<u8>)
    requires
        ascii_bytes(b),
    ensures
        valid_utf8(b),
        decode_utf8(b) == byte_chars(b),
    decreases b.len(),
{
    if b.len() > 0 {
        let c = b[0];
        let rest = b.subrange(1, b.len() as int);
        assert(c < 128);
        assert((c & 0x7Fu8) == c) by (bit_vector)
            requires
                c < 128u8,
        ;
        assert(valid_first_scalar(b));
        assert(pop_first_scalar(b) =~= rest);
        lemma_ascii_decodes_bytewise(rest);
        assert(decode_first_scalar(b) as char == c as char);
        assert(seq![c as char] + byte_chars(rest) =~= byte_chars(b));
    }
}

/// The text a literal pattern element stands for: its UTF-8 characters, or its bytes one
/// character each where it is plain ASCII or no valid UTF-8.
pub open spec fn literal_text(b: Seq<u8>) -> Seq<char> {
    if valid_utf8(b) {
        decode_utf8(b)
    } else {
        byte_chars(b)
    }
}

/// `src` is anchored regular-expression text (`^(?:` .. `)$`, or `(?:` .. `)` when
/// `contains` leaves it unanchored) whose body matches the text `t` and nothing else.
pub open spec fn regex_for_exactly(src: Seq<char>, o: MatchOptions, t: Seq<char>) -> bool {
    let lead: Seq<char> = if o.contains {
        seq!['(', '?', ':']
    } else {
        seq!['^', '(', '?', ':']
    };
    let tail: Seq<char> = if o.contains {
        seq![')']
    } else {
        seq![')', '$']
    };
    &&& src.len() >= lead.len() + tail.len()
    &&& src.subrange(0, lead.len() as int) == lead
    &&& src.subrange(src.len() - tail.len(), src.len() as int) == tail
    &&& regex_literal(src.subrange(lead.len() as int, src.len() - tail.len())) == Some(t)
}

/// The regular expression made for a pattern that is one literal matches that literal's
/// text and nothing else: its body escapes every metacharacter of the literal (`+` among
/// them), so it reads back as exactly that text.
pub proof fn law_literal_regex_matches_only_the_literal(b: Seq<u8>, o: MatchOptions)
    ensures
        regex_for_exactly(re_source(false, seq![SNode::Literal(b)], o), o, literal_text(b)),
{
    let nodes = seq![SNode::Literal(b)];
    assert(nodes.subrange(0, 0) =~= Seq::<SNode>::empty());
    let body = re_lit(b);
    assert(re_seq(nodes.subrange(0, 0), o) =~= Seq::<char>::empty());
    assert(re_node(nodes[0], o) == body);
    assert(re_seq(nodes, o) =~= body);
    if !ascii_bytes(b) && valid_utf8(b) {
        lemma_re_chars_reads_back(decode_utf8(b));
    } else {
        lemma_re_bytes_reads_back(b);
        if valid_utf8(b) {
            lemma_ascii_decodes_bytewise(b);
        }
    }
    let src = re_source(false, nodes, o);
    if o.contains {
        let lead = seq!['(', '?', ':'];
        let tail = seq![')'];
        assert(src =~= lead + body + tail);
        assert(src.subrange(3, src.len() - 1) =~= body);
        assert(src.subrange(0, 3) =~= lead);
        assert(src.subrange(src.len() - 1, src.len() as int) =~= tail);
    } else {
        let lead = seq!['^', '(', '?', ':'];
        let tail = seq![')', '$'];
        assert(src =~= lead + body + tail);
        assert(src.subrange(4, src.len() - 2) =~= body);
        assert(src.subrange(0, 4) =~= lead);
        assert(src.subrange(src.len() - 2, src.len() as int) =~= tail);
    }
}

/// Byte `i` of a pattern has no glob meaning: no escape, separator, wildcard, bracket or
/// brace, and no `+`, `@` or `!` right before `(`.
pub open spec fn literal_in_pattern(b: Seq<u8>, i: int) -> bool {
    let c = b[i];
    &&& c != 92u8 && c != 47u8 && c != 63u8 && c != 42u8 && c != 91u8 && c != 123u8
    &&& !((c == 43u8 || c == 64u8 || c == 33u8) && byte_at(b, i + 1) == Some(40u8))
}

proof fn lemma_literal_seq(b: Seq<u8>, o: MatchOptions, pos: int, lit: Seq<u8>, out: Seq<SNode>)
    requires
        0 <= pos <= b.len(),
        forall|i: int| 0 <= i < b.len() ==> literal_in_pattern(b, i),
    ensures
        seq_spec(b, o, pos, Stop::Eof, lit, out) == PRes::Done(
            flush(lit + b.subrange(pos, b.len() as int), out),
            b.len() as int,
        ),
    decreases b.len() - pos,
{
    if pos < b.len() {
        assert(literal_in_pattern(b, pos));
        lemma_literal_seq(b, o, pos + 1, lit.push(b[pos]), out);
        assert(lit.push(b[pos]) + b.subrange(pos + 1, b.len() as int) =~= lit + b.subrange(
            pos,
            b.len() as int,
        ));
    } else {
        assert(lit + b.subrange(pos, b.len() as int) =~= lit);
    }
}

/// A pattern without glob syntax, such as `a+b.js`, parses to one literal, itself, and the
/// regular expression made for it (what `make_re_source` returns) matches exactly its text.
pub proof fn law_literal_pattern_regex(b: Seq<u8>, o: MatchOptions)
    requires
        0 < b.len() <= o.max_length,
        b[0] != 33u8,
        forall|i: int| 0 <= i < b.len() ==> literal_in_pattern(b, i),
    ensures
        pattern_spec(b, o) == PRes::Done((false, seq![SNode::Literal(b)]), b.len() as int),
        regex_for_exactly(re_source(false, seq![SNode::Literal(b)], o), o, literal_text(b)),
{
    lemma_literal_seq(b, o, 0, Seq::empty(), Seq::empty());
    assert(Seq::<u8>::empty() + b.subrange(0, b.len() as int) =~= b);
    assert(crate::parse::bang_run(b, 0) == 0);
    assert(flush(b, Seq::empty()) =~= seq![SNode::Literal(b)]);
    law_literal_regex_matches_only_the_literal(b, o);
}

} // verus!
