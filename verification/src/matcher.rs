use vstd::prelude::*;

use crate::compile::{FastShape, MatcherFn, Program};
use crate::options::{sep_spec, MatchOptions, Mode};
use crate::search::{
    basename, cased_eq, contains_sep, ends_with_cased, eq_cased, find_sub, has_sep,
    last_seg_start, lemma_seg_start, memmem_nocase, occurs_at, seg_start, starts_with_cased,
};
use crate::util::{pack_le, pack_spec};
use crate::vm::{run, MatchCtx};

verus! {

/// The last `l` bytes of `s`.
pub open spec fn tail_of(s: Seq<u8>, l: int) -> Seq<u8> {
    s.subrange(s.len() - l, s.len() as int)
}

/// The whole input equals the pool.
pub open spec fn literal_spec(p: Program, o: MatchOptions, s: Seq<u8>) -> bool {
    cased_eq(s, p.pool@, o.nocase)
}

/// `prefix*`: the input starts with the prefix and the rest is one segment, not starting
/// with a dot at the start of a segment (unless `dot`).
pub open spec fn prefix_star_spec(p: Program, o: MatchOptions, s: Seq<u8>) -> bool {
    match p.shape {
        FastShape::PrefixStar { prefix_len } => {
            let pl = prefix_len as int;
            &&& s.len() >= pl
            &&& occurs_at(s, p.pool@.subrange(0, pl), 0, o.nocase)
            &&& !((pl == 0 || sep_spec(o.mode, s[pl - 1])) && !o.dot && s.len() > pl && s[pl]
                == 46u8)
            &&& !has_sep(s.subrange(pl, s.len() as int), o.mode)
        },
        _ => false,
    }
}

/// `prefix*suffix`: prefix and suffix around one segment, with the dot rule for the middle.
pub open spec fn prefix_star_suffix_spec(p: Program, o: MatchOptions, s: Seq<u8>) -> bool {
    match p.shape {
        FastShape::PrefixStarSuffix { prefix_len, suffix_off, suffix_len } => {
            let pl = prefix_len as int;
            let sl = suffix_len as int;
            let n = s.len() as int;
            &&& n >= pl + sl
            &&& occurs_at(s, p.pool@.subrange(0, pl), 0, o.nocase)
            &&& occurs_at(s, p.pool_range(suffix_off, suffix_len), n - sl, o.nocase)
            &&& !((pl == 0 || sep_spec(o.mode, s[pl - 1])) && !o.dot && n - sl > pl && s[pl]
                == 46u8)
            &&& !has_sep(s.subrange(pl, n - sl), o.mode)
        },
        _ => false,
    }
}

/// `**/literal`: the input is the literal, or ends with a separator and the literal.
pub open spec fn globstar_literal_spec(p: Program, o: MatchOptions, s: Seq<u8>) -> bool {
    match p.shape {
        FastShape::GlobstarLiteral { suffix_off, suffix_len } => {
            let sl = suffix_len as int;
            let n = s.len() as int;
            let suffix = p.pool_range(suffix_off, suffix_len);
            if n == sl {
                occurs_at(s, suffix, 0, o.nocase)
            } else if n < sl + 1 {
                false
            } else {
                sep_spec(o.mode, s[n - sl - 1]) && occurs_at(s, suffix, n - sl, o.nocase)
            }
        },
        _ => false,
    }
}

/// The dot rule for `**/*suffix`: the last segment (from `ss`) holds the suffix and starts
/// with a dot only when `dot` is set or the segment is the suffix itself starting with a dot.
pub open spec fn dotrule_spec(s: Seq<u8>, ss: int, suffix: Seq<u8>, sl: int, o: MatchOptions) -> bool {
    &&& s.len() - ss >= sl
    &&& !(!o.dot && ss < s.len() && s[ss] == 46u8 && !(s.len() - ss - sl == 0 && suffix.len()
        > 0 && suffix[0] == 46u8))
}

/// The input ends with the pool range `(off, len)` and passes the dot rule.
pub open spec fn suffix_hit(p: Program, o: MatchOptions, s: Seq<u8>, off: u32, len: u32) -> bool {
    let n = s.len() as int;
    &&& n >= len
    &&& occurs_at(s, p.pool_range(off, len), n - len, o.nocase)
    &&& dotrule_spec(s, seg_start(s, o.mode, n), p.pool_range(off, len), len as int, o)
}

/// `**/*suffix`.
pub open spec fn globstar_star_suffix_spec(p: Program, o: MatchOptions, s: Seq<u8>) -> bool {
    match p.shape {
        FastShape::GlobstarStarSuffix { suffix_off, suffix_len } => suffix_hit(
            p,
            o,
            s,
            suffix_off,
            suffix_len,
        ),
        _ => false,
    }
}

/// `**/*{a,b,..}`: one of the listed suffixes hits.
pub open spec fn globstar_star_suffixes_spec(p: Program, o: MatchOptions, s: Seq<u8>) -> bool {
    match p.shape {
        FastShape::GlobstarStarSuffixes { suffixes_off, suffixes_len } => exists|i: int|
            suffixes_off <= i < suffixes_off + suffixes_len && suffix_hit(
                p,
                o,
                s,
                (#[trigger] p.suffix_table@[i]).0,
                p.suffix_table@[i].1,
            ),
        _ => false,
    }
}

/// The last `l` bytes of `s` against a literal: by their packed little-endian value when
/// `l <= 8` and case matters, else byte by byte.
pub open spec fn tail_eq_spec(
    p: Program,
    o: MatchOptions,
    s: Seq<u8>,
    off: u32,
    l: u32,
    packed: u64,
) -> bool {
    if l <= 8 && !o.nocase {
        pack_spec(tail_of(s, l as int)) == packed
    } else {
        cased_eq(tail_of(s, l as int), p.pool_range(off, l), o.nocase)
    }
}

/// `**/*.ext`: the last segment ends with the literal, and starts with a dot only when
/// `dot` is set or the segment is the literal itself.
pub open spec fn ends_with_literal_spec(p: Program, o: MatchOptions, s: Seq<u8>) -> bool {
    match p.shape {
        FastShape::EndsWithLiteral { tail_off, tail_len, tail_packed } => {
            let tl = tail_len as int;
            let n = s.len() as int;
            let ss = seg_start(s, o.mode, n);
            let seg_len = n - ss;
            &&& n >= tl
            &&& seg_len >= tl
            &&& tail_eq_spec(p, o, s, tail_off, tail_len, tail_packed)
            &&& !(!o.dot && seg_len > 0 && s[ss] == 46u8 && seg_len != tl)
        },
        _ => false,
    }
}

/// `**/*.{a,b,..}`: the last segment is not dot-blocked and ends with one of the extensions.
pub open spec fn dotted_extensions_spec(p: Program, o: MatchOptions, s: Seq<u8>) -> bool {
    match p.shape {
        FastShape::DottedExtensions { exts_off, exts_len } => {
            let n = s.len() as int;
            let ss = seg_start(s, o.mode, n);
            &&& n > 0
            &&& n - ss > 0
            &&& exists|i: int|
                exts_off <= i < exts_off + exts_len && n - ss >= (#[trigger] p.ext_table@[i]).len
                    && tail_eq_spec(
                    p,
                    o,
                    s,
                    p.ext_table@[i].off,
                    p.ext_table@[i].len,
                    p.ext_table@[i].packed,
                ) && !(!o.dot && s[ss] == 46u8 && n - ss != p.ext_table@[i].len)
        },
        _ => false,
    }
}

/// The prefilter passes: the program's chosen literal (when it has at least two bytes)
/// occurs in the input.
pub open spec fn prefilter_spec(p: Program, o: MatchOptions, s: Seq<u8>) -> bool {
    match p.prefilter {
        Some(pf) => pf.1 < 2 || exists|j: int| occurs_at(s, p.pool_range(pf.0, pf.1), j, o.nocase),
        None => true,
    }
}

/// The general matcher: the whole program matches the whole input.
pub open spec fn anchored_spec(p: Program, o: MatchOptions, s: Seq<u8>) -> bool {
    prefilter_spec(p, o, s) && run(p, o, s, 0, 0, p.code@.len() as int, true) == Some(
        s.len() as int,
    )
}

/// The program matches a stretch of the input that starts at `i`.
pub open spec fn hit_from(p: Program, o: MatchOptions, s: Seq<u8>, i: int) -> bool {
    run(p, o, s, 0, i, p.code@.len() as int, i == 0) is Some
}

/// The `contains` matcher: the program matches from some index of the input.
pub open spec fn anywhere_spec(p: Program, o: MatchOptions, s: Seq<u8>) -> bool {
    exists|i: int| 0 <= i <= s.len() && #[trigger] hit_from(p, o, s, i)
}

/// What the matcher `m` answers for the input `s`.
pub open spec fn base_spec(m: MatcherFn, p: Program, o: MatchOptions, s: Seq<u8>) -> bool {
    match m {
        MatcherFn::AnchoredDispatch => anchored_spec(p, o, s),
        MatcherFn::AnywhereDispatch => anywhere_spec(p, o, s),
        MatcherFn::Literal => literal_spec(p, o, s),
        MatcherFn::PrefixStar => prefix_star_spec(p, o, s),
        MatcherFn::PrefixStarSuffix => prefix_star_suffix_spec(p, o, s),
        MatcherFn::GlobstarLiteral => globstar_literal_spec(p, o, s),
        MatcherFn::GlobstarStarSuffix => globstar_star_suffix_spec(p, o, s),
        MatcherFn::GlobstarStarSuffixes => globstar_star_suffixes_spec(p, o, s),
        MatcherFn::DottedExtensions => dotted_extensions_spec(p, o, s),
        MatcherFn::EndsWithLiteral => ends_with_literal_spec(p, o, s),
        _ => false,
    }
}

/// The last segment of `s` under `mode`.
pub open spec fn basename_spec(s: Seq<u8>, mode: Mode) -> Seq<u8> {
    s.subrange(seg_start(s, mode, s.len() as int), s.len() as int)
}

/// What the program answers before its negation: its base matcher, on the basename when
/// basename matching applies to it.
pub open spec fn unnegated_spec(p: Program, o: MatchOptions, s: Seq<u8>) -> bool {
    if o.match_base && !p.has_slash {
        base_spec(p.base_matcher_fn, p, o, basename_spec(s, o.mode))
    } else {
        base_spec(p.base_matcher_fn, p, o, s)
    }
}

/// Whether the program matches the input: its matcher, applied to the basename or negated
/// when the program says so.
pub open spec fn matches_spec(p: Program, o: MatchOptions, s: Seq<u8>) -> bool {
    match p.matcher_fn {
        MatcherFn::BasenamePosixThenBase => base_spec(p.base_matcher_fn, p, o, basename_spec(s, Mode::Posix)),
        MatcherFn::BasenameWindowsThenBase => base_spec(p.base_matcher_fn, p, o, basename_spec(s, Mode::Windows)),
        MatcherFn::NegateThenBase => !unnegated_spec(p, o, s),
        m => base_spec(m, p, o, s),
    }
}

/// Whether `input` is the pool (case folded when `nocase`).
pub fn match_literal(prog: &Program, opts: &MatchOptions, input: &[u8]) -> (r: bool)
    ensures
        r == literal_spec(*prog, *opts, input@),
{
    let pool = prog.pool.as_slice();
    if input.len() != pool.len() {
        return false;
    }
    eq_cased(input, pool, opts.nocase)
}

/// The `PrefixStar` fast path.
pub fn match_prefix_star(prog: &Program, opts: &MatchOptions, input: &[u8]) -> (r: bool)
    requires
        prog.wf(),
    ensures
        r == prefix_star_spec(*prog, *opts, input@),
{
    let prefix_len = match prog.shape {
        FastShape::PrefixStar { prefix_len } => prefix_len as usize,
        _ => {
            crate::util::cold_path();
            return false;
        },
    };
    if input.len() < prefix_len {
        return false;
    }
    let prefix = &prog.pool[0..prefix_len];
    if !starts_with_cased(input, prefix, opts.nocase) {
        return false;
    }
    let rest = &input[prefix_len..input.len()];
    let at_segment_start = prefix_len == 0 || opts.mode.is_sep(input[prefix_len - 1]);
    if at_segment_start && !opts.dot && rest.len() > 0 && rest[0] == 46u8 {
        return false;
    }
    !contains_sep(rest, opts.mode)
}

/// The `PrefixStarSuffix` fast path.
pub fn match_prefix_star_suffix(prog: &Program, opts: &MatchOptions, input: &[u8]) -> (r: bool)
    requires
        prog.wf(),
    ensures
        r == prefix_star_suffix_spec(*prog, *opts, input@),
{
    let _pool_len = prog.pool.len();
    let (prefix_len, suffix_off, suffix_len) = match prog.shape {
        FastShape::PrefixStarSuffix { prefix_len, suffix_off, suffix_len } => (
            prefix_len as usize,
            suffix_off as usize,
            suffix_len as usize,
        ),
        _ => {
            crate::util::cold_path();
            return false;
        },
    };
    let n = input.len();
    if n < suffix_len || n - suffix_len < prefix_len {
        return false;
    }
    let prefix = &prog.pool[0..prefix_len];
    let suffix = &prog.pool[suffix_off..suffix_off + suffix_len];
    if !starts_with_cased(input, prefix, opts.nocase) {
        return false;
    }
    if !ends_with_cased(input, suffix, opts.nocase) {
        return false;
    }
    let middle = &input[prefix_len..n - suffix_len];
    let at_segment_start = prefix_len == 0 || opts.mode.is_sep(input[prefix_len - 1]);
    if at_segment_start && !opts.dot && middle.len() > 0 && middle[0] == 46u8 {
        return false;
    }
    !contains_sep(middle, opts.mode)
}

/// The `GlobstarLiteral` fast path.
pub fn match_globstar_literal(prog: &Program, opts: &MatchOptions, input: &[u8]) -> (r: bool)
    requires
        prog.wf(),
    ensures
        r == globstar_literal_spec(*prog, *opts, input@),
{
    let _pool_len = prog.pool.len();
    let (suffix_off, suffix_len) = match prog.shape {
        FastShape::GlobstarLiteral { suffix_off, suffix_len } => (
            suffix_off as usize,
            suffix_len as usize,
        ),
        _ => {
            crate::util::cold_path();
            return false;
        },
    };
    let suffix = &prog.pool[suffix_off..suffix_off + suffix_len];
    let n = input.len();
    if n == suffix_len {
        return ends_with_cased(input, suffix, opts.nocase);
    }
    if n < suffix_len || n - suffix_len < 1 {
        return false;
    }
    let sep_pos = n - suffix_len - 1;
    if !opts.mode.is_sep(input[sep_pos]) {
        return false;
    }
    ends_with_cased(input, suffix, opts.nocase)
}

/// The dot rule of the `**/*suffix` shapes.
fn globstar_star_suffix_dotrule(
    input: &[u8],
    seg_start: usize,
    suffix: &[u8],
    suffix_len: usize,
    opts: &MatchOptions,
) -> (r: bool)
    requires
        seg_start <= input@.len(),
        suffix_len == suffix@.len(),
    ensures
        r == dotrule_spec(input@, seg_start as int, suffix@, suffix_len as int, *opts),
{
    if input.len() - seg_start < suffix_len {
        return false;
    }
    if !opts.dot && seg_start < input.len() && input[seg_start] == 46u8 {
        let consumed_by_star = input.len() - seg_start - suffix_len;
        if consumed_by_star == 0 {
            if !(suffix.len() > 0 && suffix[0] == 46u8) {
                return false;
            }
        } else {
            return false;
        }
    }
    true
}

/// The `GlobstarStarSuffix` fast path.
pub fn match_globstar_star_suffix(prog: &Program, opts: &MatchOptions, input: &[u8]) -> (r: bool)
    requires
        prog.wf(),
    ensures
        r == globstar_star_suffix_spec(*prog, *opts, input@),
{
    let _pool_len = prog.pool.len();
    let (suffix_off, suffix_len) = match prog.shape {
        FastShape::GlobstarStarSuffix { suffix_off, suffix_len } => (
            suffix_off as usize,
            suffix_len as usize,
        ),
        _ => {
            crate::util::cold_path();
            return false;
        },
    };
    if input.len() < suffix_len {
        return false;
    }
    let suffix = &prog.pool[suffix_off..suffix_off + suffix_len];
    if !ends_with_cased(input, suffix, opts.nocase) {
        return false;
    }
    let seg_start = last_seg_start(input, opts.mode);
    proof {
        lemma_seg_start(input@, opts.mode, input@.len() as int);
    }
    globstar_star_suffix_dotrule(input, seg_start, suffix, suffix_len, opts)
}

/// The `GlobstarStarSuffixes` fast path.
pub fn match_globstar_star_suffixes(prog: &Program, opts: &MatchOptions, input: &[u8]) -> (r: bool)
    requires
        prog.wf(),
    ensures
        r == globstar_star_suffixes_spec(*prog, *opts, input@),
{
    let _pool_len = prog.pool.len();
    let (off32, len32) = match prog.shape {
        FastShape::GlobstarStarSuffixes { suffixes_off, suffixes_len } => (
            suffixes_off,
            suffixes_len,
        ),
        _ => {
            crate::util::cold_path();
            return false;
        },
    };
    let off = off32 as usize;
    let len = len32 as usize;
    let seg_start = last_seg_start(input, opts.mode);
    proof {
        lemma_seg_start(input@, opts.mode, input@.len() as int);
    }
    let _table_len = prog.suffix_table.len();
    let end = off + len;
    let mut i = off;
    while i < end
        invariant
            prog.wf(),
            end == off + len,
            _pool_len == prog.pool@.len(),
            off + len <= prog.suffix_table@.len(),
            off <= i <= off + len,
            seg_start == crate::search::seg_start(input@, opts.mode, input@.len() as int),
            seg_start <= input@.len(),
            prog.shape == (FastShape::GlobstarStarSuffixes { suffixes_off: off32, suffixes_len: len32 }),
            off == off32,
            len == len32,
            forall|j: int|
                off <= j < i ==> !suffix_hit(
                    *prog,
                    *opts,
                    input@,
                    (#[trigger] prog.suffix_table@[j]).0,
                    prog.suffix_table@[j].1,
                ),
        decreases off + len - i,
    {
        let (soff, slen) = prog.suffix_table[i];
        assert(crate::compile::in_pool(*prog, prog.suffix_table@[i as int].0, prog.suffix_table@[i as int].1));
        let suffix_len = slen as usize;
        if input.len() >= suffix_len {
            let suffix = &prog.pool[soff as usize..soff as usize + suffix_len];
            if ends_with_cased(input, suffix, opts.nocase) {
                if globstar_star_suffix_dotrule(input, seg_start, suffix, suffix_len, opts) {
                    assert(suffix_hit(*prog, *opts, input@, prog.suffix_table@[i as int].0, prog.suffix_table@[i as int].1));
                    return true;
                }
            }
        }
        i = i + 1;
    }
    false
}

/// Compares the last `l` bytes of `input` with a literal as `tail_eq_spec` says.
fn tail_eq(
    prog: &Program,
    opts: &MatchOptions,
    input: &[u8],
    off: u32,
    l: u32,
    packed: u64,
) -> (r: bool)
    requires
        l <= input@.len(),
        crate::compile::in_pool(*prog, off, l),
    ensures
        r == tail_eq_spec(*prog, *opts, input@, off, l, packed),
{
    let n = input.len();
    let tlen = l as usize;
    let tail = &input[n - tlen..n];
    if tlen <= 8 && !opts.nocase {
        pack_le(tail) == packed
    } else {
        let _pool_len = prog.pool.len();
        let bytes = &prog.pool[off as usize..off as usize + tlen];
        eq_cased(tail, bytes, opts.nocase)
    }
}

/// The `EndsWithLiteral` fast path.
pub fn match_ends_with_literal(prog: &Program, opts: &MatchOptions, input: &[u8]) -> (r: bool)
    requires
        prog.wf(),
    ensures
        r == ends_with_literal_spec(*prog, *opts, input@),
{
    let (tail_off, tail_len, tail_packed) = match prog.shape {
        FastShape::EndsWithLiteral { tail_off, tail_len, tail_packed } => (
            tail_off,
            tail_len,
            tail_packed,
        ),
        _ => {
            crate::util::cold_path();
            return false;
        },
    };
    let tlen = tail_len as usize;
    let n = input.len();
    if n < tlen {
        return false;
    }
    let seg_start = last_seg_start(input, opts.mode);
    proof {
        lemma_seg_start(input@, opts.mode, input@.len() as int);
    }
    let seg_len = n - seg_start;
    if seg_len < tlen {
        return false;
    }
    if !tail_eq(prog, opts, input, tail_off, tail_len, tail_packed) {
        return false;
    }
    if !opts.dot && seg_len > 0 && input[seg_start] == 46u8 && seg_len != tlen {
        return false;
    }
    true
}

/// The `DottedExtensions` fast path.
pub fn match_dotted_extensions(prog: &Program, opts: &MatchOptions, input: &[u8]) -> (r: bool)
    requires
        prog.wf(),
    ensures
        r == dotted_extensions_spec(*prog, *opts, input@),
{
    let (off32, len32) = match prog.shape {
        FastShape::DottedExtensions { exts_off, exts_len } => (exts_off, exts_len),
        _ => {
            crate::util::cold_path();
            return false;
        },
    };
    let off = off32 as usize;
    let len = len32 as usize;
    if input.len() == 0 {
        return false;
    }
    let seg_start = last_seg_start(input, opts.mode);
    proof {
        lemma_seg_start(input@, opts.mode, input@.len() as int);
    }
    let n = input.len();
    let seg_len = n - seg_start;
    if seg_len == 0 {
        return false;
    }
    let starts_dot = input[seg_start] == 46u8;
    let dot_blocked = !opts.dot && starts_dot;
    let _table_len = prog.ext_table.len();
    let end = off + len;
    let mut i = off;
    while i < end
        invariant
            prog.wf(),
            end == off + len,
            prog.shape == (FastShape::DottedExtensions { exts_off: off32, exts_len: len32 }),
            off == off32,
            len == len32,
            off + len <= prog.ext_table@.len(),
            off <= i <= off + len,
            n == input@.len(),
            seg_start == crate::search::seg_start(input@, opts.mode, input@.len() as int),
            seg_start < n,
            seg_len == n - seg_start,
            dot_blocked == (!opts.dot && input@[seg_start as int] == 46u8),
            forall|j: int|
                off <= j < i ==> !(n - seg_start >= (#[trigger] prog.ext_table@[j]).len
                    && tail_eq_spec(
                    *prog,
                    *opts,
                    input@,
                    prog.ext_table@[j].off,
                    prog.ext_table@[j].len,
                    prog.ext_table@[j].packed,
                ) && !(dot_blocked && n - seg_start != prog.ext_table@[j].len)),
        decreases off + len - i,
    {
        let e = prog.ext_table[i];
        assert(crate::compile::in_pool(*prog, prog.ext_table@[i as int].off, prog.ext_table@[i as int].len));
        let elen = e.len as usize;
        if seg_len >= elen {
            if tail_eq(prog, opts, input, e.off, e.len, e.packed) {
                if !dot_blocked || seg_len == elen {
                    assert(off <= i < off + len && n - seg_start >= prog.ext_table@[i as int].len
                        && tail_eq_spec(*prog, *opts, input@, prog.ext_table@[i as int].off,
                        prog.ext_table@[i as int].len, prog.ext_table@[i as int].packed));
                    return true;
                }
            }
        }
        i = i + 1;
    }
    false
}

/// The general matcher: the prefilter, then the whole program against the whole input.
pub fn match_anchored_dispatch(prog: &Program, opts: &MatchOptions, input: &[u8]) -> (r: bool)
    requires
        prog.wf(),
    ensures
        r == anchored_spec(*prog, *opts, input@),
{
    let _pool_len = prog.pool.len();
    match prog.prefilter {
        Some(pf) => {
            let (off, len) = pf;
            if len >= 2 {
                let needle = &prog.pool[off as usize..off as usize + len as usize];
                let hay_ok = if opts.nocase {
                    memmem_nocase(input, needle)
                } else {
                    let f = find_sub(input, needle);
                    proof {
                        if let Some(j) = f {
                            assert(needle@ == prog.pool_range(off, len));
                            assert(occurs_at(input@, prog.pool_range(off, len), j as int, opts.nocase));
                        }
                    }
                    f.is_some()
                };
                if !hay_ok {
                    return false;
                }
                assert(needle@ == prog.pool_range(off, len));
                assert(prefilter_spec(*prog, *opts, input@));
            }
        },
        None => {},
    }
    let ctx = MatchCtx { prog, opts, input };
    let code_len = prog.code.len() as u32;
    match ctx.exec(0, 0, code_len, true) {
        Some(e) => e == input.len(),
        None => false,
    }
}

/// The `contains` matcher: the program from each start index in turn.
pub fn match_anywhere_dispatch(prog: &Program, opts: &MatchOptions, input: &[u8]) -> (r: bool)
    requires
        prog.wf(),
    ensures
        r == anywhere_spec(*prog, *opts, input@),
{
    let ctx = MatchCtx { prog, opts, input };
    let code_len = prog.code.len() as u32;
    let n = input.len();
    let mut i: usize = 0;
    loop
        invariant
            ctx.prog == prog,
            ctx.opts == opts,
            ctx.input == input,
            prog.wf(),
            code_len == prog.code@.len(),
            n == input@.len(),
            i <= n,
            forall|j: int| 0 <= j < i ==> !#[trigger] hit_from(*prog, *opts, input@, j),
        decreases n - i,
    {
        let r = ctx.exec(0, i, code_len, i == 0);
        if r.is_some() {
            assert(hit_from(*prog, *opts, input@, i as int));
            return true;
        }
        if i >= n {
            return false;
        }
        i = i + 1;
    }
}

/// The matcher that applies `inner` to the last path segment.
pub fn matcher_basename_then(_inner: MatcherFn, mode: Mode) -> (r: MatcherFn)
    ensures
        r == (match mode {
            Mode::Posix => MatcherFn::BasenamePosixThenBase,
            Mode::Windows => MatcherFn::BasenameWindowsThenBase,
        }),
{
    match mode {
        Mode::Posix => MatcherFn::BasenamePosixThenBase,
        Mode::Windows => MatcherFn::BasenameWindowsThenBase,
    }
}

/// The matcher that negates the program's base matcher.
pub fn matcher_negate_then(_inner: MatcherFn) -> (r: MatcherFn)
    ensures
        r == MatcherFn::NegateThenBase,
{
    MatcherFn::NegateThenBase
}

/// Runs the matcher `m`, which matches the input itself.
fn call_base(m: MatcherFn, prog: &Program, opts: &MatchOptions, input: &[u8]) -> (r: bool)
    requires
        prog.wf(),
    ensures
        r == base_spec(m, *prog, *opts, input@),
{
    match m {
        MatcherFn::AnchoredDispatch => match_anchored_dispatch(prog, opts, input),
        MatcherFn::AnywhereDispatch => match_anywhere_dispatch(prog, opts, input),
        MatcherFn::Literal => match_literal(prog, opts, input),
        MatcherFn::PrefixStar => match_prefix_star(prog, opts, input),
        MatcherFn::PrefixStarSuffix => match_prefix_star_suffix(prog, opts, input),
        MatcherFn::GlobstarLiteral => match_globstar_literal(prog, opts, input),
        MatcherFn::GlobstarStarSuffix => match_globstar_star_suffix(prog, opts, input),
        MatcherFn::GlobstarStarSuffixes => match_globstar_star_suffixes(prog, opts, input),
        MatcherFn::DottedExtensions => match_dotted_extensions(prog, opts, input),
        MatcherFn::EndsWithLiteral => match_ends_with_literal(prog, opts, input),
        _ => false,
    }
}

fn basename_posix_then_base(prog: &Program, opts: &MatchOptions, input: &[u8]) -> (r: bool)
    requires
        prog.wf(),
    ensures
        r == base_spec(prog.base_matcher_fn, *prog, *opts, basename_spec(input@, Mode::Posix)),
{
    let view = basename(input, Mode::Posix);
    call_base(prog.base_matcher_fn, prog, opts, view)
}

fn basename_windows_then_base(prog: &Program, opts: &MatchOptions, input: &[u8]) -> (r: bool)
    requires
        prog.wf(),
    ensures
        r == base_spec(prog.base_matcher_fn, *prog, *opts, basename_spec(input@, Mode::Windows)),
{
    let view = basename(input, Mode::Windows);
    call_base(prog.base_matcher_fn, prog, opts, view)
}

fn negate_then_base(prog: &Program, opts: &MatchOptions, input: &[u8]) -> (r: bool)
    requires
        prog.wf(),
    ensures
        r == !unnegated_spec(*prog, *opts, input@),
{
    if opts.match_base && !prog.has_slash {
        match opts.mode {
            Mode::Posix => !basename_posix_then_base(prog, opts, input),
            Mode::Windows => !basename_windows_then_base(prog, opts, input),
        }
    } else {
        !call_base(prog.base_matcher_fn, prog, opts, input)
    }
}

/// Whether the compiled program matches `input`.
pub fn matches(prog: &Program, opts: &MatchOptions, input: &[u8]) -> (r: bool)
    requires
        prog.wf(),
    ensures
        r == matches_spec(*prog, *opts, input@),
{
    match prog.matcher_fn {
        MatcherFn::BasenamePosixThenBase => basename_posix_then_base(prog, opts, input),
        MatcherFn::BasenameWindowsThenBase => basename_windows_then_base(prog, opts, input),
        MatcherFn::NegateThenBase => negate_then_base(prog, opts, input),
        m => call_base(m, prog, opts, input),
    }
}

} // verus!
