use vstd::prelude::*;

use crate::ast::SNode;
use crate::compile::{
    all_dotted, all_plain, alt_literal, append_exts, compiled_ok, detect, dotted_alt, dotted_shape,
    emit_node, emit_seq, emission_fits, exts_fit, has_slash_byte, matcher_for, no_emission, packed_of,
    plain_alt, pool_bytes, staged, total_len, CompiledGlob, Emission, FastShape, Instr, MatcherFn,
    Program,
};
use crate::layout::{
    laid_out, lemma_emit_node, lemma_group, lemma_litsum_nonneg, lemma_seq, lemma_top_walk, litsum,
    visits,
};
use crate::matcher::{
    anchored_spec, base_spec, dotted_extensions_spec, ends_with_literal_spec, hit_from,
    globstar_star_suffix_spec, globstar_star_suffixes_spec, matches_spec, prefilter_spec,
    prefix_star_spec, prefix_star_suffix_spec, suffix_hit, tail_eq_spec, tail_of,
};
use crate::options::{sep_spec, MatchOptions, Mode};
use crate::parse::{
    brace_balanced_spec, brace_branches, brace_spec, byte_at, class_spec, esc, ext_branches, ext_kind_of,
    flush, is_ext_intro, is_stop, lemma_star_run, pattern_spec, seq_spec, star_run, ClassRes, PRes, Stop,
};
use crate::screen::{lemma_run_sees, lit_found};
use crate::set::found_in;
use crate::search::{
    cased_eq, has_sep, lemma_seg_end, lemma_seg_end_unique, lemma_seg_start, lemma_seg_start_unique,
    occurs_at, seg_end, seg_start,
};
use crate::util::{
    lemma_pack_bound, lemma_pack_injective, lemma_pow256_mono, lower_spec, pack_spec, pow256,
};
use crate::vm::{
    alt_run, brace_alts, globstar_case, gloop, gskip, lit_of, run, star_back, star_case, star_skip,
};

verus! {

// Each fast path answers as the general matcher does on the same program.

/// `**/lit`: the literal ends the input and starts it or follows a separator.
pub open spec fn tail_after_sep(o: MatchOptions, s: Seq<u8>, need: Seq<u8>) -> bool {
    let t = s.len() - need.len();
    &&& t >= 0
    &&& occurs_at(s, need, t, o.nocase)
    &&& (t == 0 || sep_spec(o.mode, s[t - 1]))
}

/// The code of `**/lit`.
pub open spec fn globstar_literal_code(p: Program, off: u32, len: u32) -> bool {
    &&& p.code@.len() == 3
    &&& p.code@[0] is Globstar
    &&& p.code@[1] is Sep
    &&& p.code@[2] == (Instr::Literal { off, len })
    &&& off + len <= p.pool@.len()
}

/// After `**` and a separator, the literal is tried at each index from `k` on: the run
/// succeeds exactly when the literal can end the input there.
proof fn lemma_gskip_literal(p: Program, o: MatchOptions, s: Seq<u8>, off: u32, len: u32, k: int)
    requires
        globstar_literal_code(p, off, len),
        !o.contains,
        0 <= k <= s.len(),
    ensures
        gskip(p, o, s, 0, 0, 3, p.pool_range(off, len), true, true, k) == if k <= s.len() - len
            && tail_after_sep(o, s, p.pool_range(off, len)) {
            Some(s.len() as int)
        } else {
            None
        },
    decreases s.len() - k,
{
    let need = p.pool_range(off, len);
    let n = s.len() as int;
    assert(need.len() == len);
    let hay = s.subrange(0, n);
    assert(hay =~= s);
    if k < n {
        lemma_gskip_literal(p, o, s, off, len, k + 1);
    } else {
        assert(gskip(p, o, s, 0, 0, 3, need, true, true, k + 1) is None);
    }
    if occurs_at(hay, need, k, o.nocase) && (k == 0 || sep_spec(o.mode, s[k - 1])) {
        assert(s.subrange(k, k + len) =~= hay.subrange(k, k + need.len()));
        let r3 = run(p, o, s, 3, k + len, 3, len > 0 && sep_spec(o.mode, need[len - 1]));
        assert(r3 == if k + len == n { Some(n) } else { None });
        assert(run(p, o, s, 2, k, 3, true) == r3);
    }
    if k <= n - len && tail_after_sep(o, s, need) && k < n - len {
        assert(k + need.len() != n);
    }
}

/// The code of `**/*lit`, whose literal holds no separator byte.
pub open spec fn star_suffix_code(p: Program, off: u32, len: u32) -> bool {
    &&& p.code@.len() == 4
    &&& p.code@[0] is Globstar
    &&& p.code@[1] is Sep
    &&& p.code@[2] is Star
    &&& p.code@[3] == (Instr::Literal { off, len })
    &&& off + len <= p.pool@.len()
    &&& !has_slash_byte(p.pool_range(off, len))
}

/// `*lit` from index `q` takes the rest of the input: that rest is one segment ending with
/// the literal, and it starts with a dot only under `dot` or when it is the literal itself.
pub open spec fn last_seg_ok(o: MatchOptions, s: Seq<u8>, q: int, need: Seq<u8>) -> bool {
    &&& seg_end(s, o.mode, q) == s.len()
    &&& s.len() - q >= need.len()
    &&& occurs_at(s, need, s.len() - need.len(), o.nocase)
    &&& !(!o.dot && q < s.len() && s[q] == 46u8 && s.len() - q != need.len())
}

/// Bytes equal (up to ASCII case) to bytes without a separator hold no separator.
proof fn lemma_cased_no_sep(a: Seq<u8>, b: Seq<u8>, nc: bool, mode: Mode)
    requires
        cased_eq(a, b, nc),
        !has_slash_byte(b),
    ensures
        forall|j: int| 0 <= j < a.len() ==> !sep_spec(mode, #[trigger] a[j]),
{
    assert forall|j: int| 0 <= j < a.len() implies !sep_spec(mode, #[trigger] a[j]) by {
        if sep_spec(mode, a[j]) {
            assert(a[j] == 47u8 || a[j] == 92u8);
            assert(b[j] == 47u8 || b[j] == 92u8);
        }
    }
}

/// `*lit` from index `q` takes the rest of the input, where the segment at `q` starts with
/// a dot only under `dot`, when `at` is unset, or when the rest is the literal itself.
pub open spec fn tail_ok(o: MatchOptions, s: Seq<u8>, q: int, need: Seq<u8>, at: bool) -> bool {
    &&& seg_end(s, o.mode, q) == s.len()
    &&& s.len() - q >= need.len()
    &&& occurs_at(s, need, s.len() - need.len(), o.nocase)
    &&& !(at && !o.dot && q < s.len() && s[q] == 46u8 && s.len() - q != need.len())
}

/// The code ends with `*` at `sp` and a literal without a separator.
pub open spec fn star_tail_code(p: Program, sp: int, off: u32, len: u32) -> bool {
    &&& 0 <= sp
    &&& p.code@.len() == sp + 2
    &&& p.code@[sp] is Star
    &&& p.code@[sp + 1] == (Instr::Literal { off, len })
    &&& off + len <= p.pool@.len()
    &&& !has_slash_byte(p.pool_range(off, len))
}

/// `*` followed by the final literal tries each place in the segment from offset `k` on.
proof fn lemma_tail_skip(p: Program, o: MatchOptions, s: Seq<u8>, sp: int, off: u32, len: u32, q: int, k: int)
    requires
        star_tail_code(p, sp, off, len),
        !o.contains,
        0 <= q <= s.len(),
        0 <= k <= seg_end(s, o.mode, q) - q,
    ensures
        star_skip(p, o, s, sp, q, sp + 2, p.pool_range(off, len), k) == if k <= s.len() - len - q
            && seg_end(s, o.mode, q) == s.len() && occurs_at(s, p.pool_range(off, len), s.len() - len, o.nocase) {
            Some(s.len() as int)
        } else {
            None
        },
    decreases seg_end(s, o.mode, q) - q - k,
{
    let need = p.pool_range(off, len);
    let n = s.len() as int;
    assert(need.len() == len);
    lemma_seg_end(s, o.mode, q);
    let se = seg_end(s, o.mode, q);
    let hay = s.subrange(q, se);
    if k < se - q {
        lemma_tail_skip(p, o, s, sp, off, len, q, k + 1);
    } else {
        assert(star_skip(p, o, s, sp, q, sp + 2, need, k + 1) is None);
    }
    if occurs_at(hay, need, k, o.nocase) {
        assert(s.subrange(q + k, q + k + len) =~= hay.subrange(k, k + need.len()));
        let r = run(p, o, s, sp + 2, q + k + len, sp + 2, len > 0 && sep_spec(o.mode, need[len - 1]));
        assert(r == if q + k + len == n { Some(n) } else { None });
        assert(run(p, o, s, sp + 1, q + k, sp + 2, false) == r);
    }
    if k == n - len - q && se == n && occurs_at(s, need, n - len, o.nocase) {
        assert(hay.subrange(k, k + need.len()) =~= s.subrange(n - len, n));
        assert(occurs_at(hay, need, k, o.nocase));
    }
}

/// `*lit` at the end of the program, from index `q`.
proof fn lemma_tail_star(p: Program, o: MatchOptions, s: Seq<u8>, sp: int, off: u32, len: u32, q: int, at: bool)
    requires
        star_tail_code(p, sp, off, len),
        !o.contains,
        0 <= q <= s.len(),
    ensures
        run(p, o, s, sp, q, sp + 2, at) == if tail_ok(o, s, q, p.pool_range(off, len), at) {
            Some(s.len() as int)
        } else {
            None
        },
{
    let need = p.pool_range(off, len);
    let n = s.len() as int;
    let end = sp + 2;
    assert(need.len() == len);
    lemma_seg_end(s, o.mode, q);
    if at && q < n && s[q] == 46u8 && !o.dot {
        let r = run(p, o, s, end, q + len, end, len > 0 && sep_spec(o.mode, need[len - 1]));
        assert(r == if q + len == n { Some(n) } else { None });
        assert(run(p, o, s, sp + 1, q, end, at) == if q + len <= n && cased_eq(s.subrange(q, q + len), need, o.nocase) {
            r
        } else {
            None
        });
        if q + len == n && cased_eq(s.subrange(q, q + len), need, o.nocase) {
            lemma_cased_no_sep(s.subrange(q, n), need, o.nocase, o.mode);
            assert forall|j: int| q <= j < n implies !sep_spec(o.mode, #[trigger] s[j]) by {
                assert(s[j] == s.subrange(q, n)[j - q]);
            }
            lemma_seg_end_unique(s, o.mode, q, n);
        }
        assert(star_case(p, o, s, sp, q, end, at) == run(p, o, s, sp + 1, q, end, at));
        assert(run(p, o, s, sp, q, end, at) == star_case(p, o, s, sp, q, end, at));
    } else {
        lemma_tail_skip(p, o, s, sp, off, len, q, 0);
        assert(lit_of(p, sp + 1) == Some(need));
        assert(star_case(p, o, s, sp, q, end, at) == star_skip(p, o, s, sp, q, end, need, 0));
        assert(run(p, o, s, sp, q, end, at) == star_case(p, o, s, sp, q, end, at));
    }
}

/// `**` followed by a separator and a tail that, from a segment start `q`, takes the rest of
/// the input exactly when `ok(q)`: the loop from `probe` on succeeds exactly when the last
/// segment start is not before `probe` and passes `ok`.
proof fn lemma_gloop_tail(p: Program, o: MatchOptions, s: Seq<u8>, len_code: int, ok: spec_fn(int) -> bool, probe: int)
    requires
        p.code@.len() == len_code,
        len_code >= 3,
        p.code@[0] is Globstar,
        p.code@[1] is Sep,
        !o.contains,
        0 <= probe <= s.len(),
        forall|q: int|
            0 <= q <= s.len() ==> #[trigger] run(p, o, s, 2, q, len_code, true) == if ok(q) {
                Some(s.len() as int)
            } else {
                None
            },
        forall|q: int| 0 <= q <= s.len() && #[trigger] ok(q) ==> seg_end(s, o.mode, q) == s.len(),
    ensures
        gloop(p, o, s, 0, 0, len_code, true, probe) == if probe <= seg_start(s, o.mode, s.len() as int)
            && ok(seg_start(s, o.mode, s.len() as int)) {
            Some(s.len() as int)
        } else {
            None
        },
    decreases s.len() - probe,
{
    let n = s.len() as int;
    let ss = seg_start(s, o.mode, n);
    lemma_seg_start(s, o.mode, n);
    if probe < n {
        lemma_gloop_tail(p, o, s, len_code, ok, probe + 1);
    } else {
        assert(gloop(p, o, s, 0, 0, len_code, true, probe + 1) is None);
    }
    assert(run(p, o, s, 2, probe, len_code, true) == if ok(probe) { Some(n) } else { None });
    if probe < n && sep_spec(o.mode, s[probe]) {
        assert(run(p, o, s, 2, probe + 1, len_code, true) == if ok(probe + 1) { Some(n) } else { None });
        assert(run(p, o, s, 1, probe, len_code, true) == run(p, o, s, 2, probe + 1, len_code, true));
        if ok(probe + 1) {
            lemma_seg_end(s, o.mode, probe + 1);
            lemma_seg_start_unique(s, o.mode, n, probe + 1);
        }
    } else {
        assert(run(p, o, s, 1, probe, len_code, true) is None);
    }
    if (probe == 0 || sep_spec(o.mode, s[probe - 1])) && ok(probe) {
        lemma_seg_end(s, o.mode, probe);
        lemma_seg_start_unique(s, o.mode, n, probe);
    }
}

/// The whole `**/lit` program.
proof fn lemma_run_globstar_literal(p: Program, o: MatchOptions, s: Seq<u8>, off: u32, len: u32)
    requires
        globstar_literal_code(p, off, len),
        !o.contains,
    ensures
        run(p, o, s, 0, 0, 3, true) == if tail_after_sep(o, s, p.pool_range(off, len)) {
            Some(s.len() as int)
        } else {
            None
        },
{
    let need = p.pool_range(off, len);
    assert(need.len() == len);
    lemma_gskip_literal(p, o, s, off, len, 0);
    assert(lit_of(p, 1) is None);
    assert(lit_of(p, 2) == Some(need));
    assert(globstar_case(p, o, s, 0, 0, 3, true) == gskip(p, o, s, 0, 0, 3, need, true, true, 0));
}

/// The whole `**/*lit` program.
proof fn lemma_run_star_suffix(p: Program, o: MatchOptions, s: Seq<u8>, off: u32, len: u32)
    requires
        star_suffix_code(p, off, len),
        !o.contains,
    ensures
        run(p, o, s, 0, 0, 4, true) == if last_seg_ok(
            o,
            s,
            seg_start(s, o.mode, s.len() as int),
            p.pool_range(off, len),
        ) {
            Some(s.len() as int)
        } else {
            None
        },
{
    let need = p.pool_range(off, len);
    let ok = |q: int| last_seg_ok(o, s, q, need);
    lemma_seg_start(s, o.mode, s.len() as int);
    assert forall|q: int| 0 <= q <= s.len() implies #[trigger] run(p, o, s, 2, q, 4, true) == if ok(q) {
        Some(s.len() as int)
    } else {
        None
    } by {
        lemma_tail_star(p, o, s, 2, off, len, q, true);
    }
    lemma_gloop_tail(p, o, s, 4, ok, 0);
    assert(lit_of(p, 1) is None);
    assert(lit_of(p, 2) is None);
    assert(globstar_case(p, o, s, 0, 0, 4, true) == gloop(p, o, s, 0, 0, 4, true, 0));
}

/// The suffix test of the `**/*lit` fast paths is `last_seg_ok` for the last segment.
proof fn lemma_suffix_hit(p: Program, o: MatchOptions, s: Seq<u8>, off: u32, len: u32)
    requires
        off + len <= p.pool@.len(),
        !has_slash_byte(p.pool_range(off, len)),
    ensures
        suffix_hit(p, o, s, off, len) == last_seg_ok(
            o,
            s,
            seg_start(s, o.mode, s.len() as int),
            p.pool_range(off, len),
        ),
{
    let need = p.pool_range(off, len);
    let n = s.len() as int;
    let ss = seg_start(s, o.mode, n);
    assert(need.len() == len);
    lemma_seg_start(s, o.mode, n);
    lemma_seg_end_unique(s, o.mode, ss, n);
    if ss < n && s[ss] == 46u8 && n - ss == len && occurs_at(s, need, n - len, o.nocase) {
        assert(s.subrange(n - len, n)[0] == s[ss]);
        assert(need[0] == 46u8);
    }
}

/// The `**/*lit` fast paths answer `last_seg_ok` for the last segment.
proof fn lemma_star_suffix_specs(p: Program, o: MatchOptions, s: Seq<u8>, off: u32, len: u32)
    requires
        star_suffix_code(p, off, len),
    ensures
        p.shape == (FastShape::GlobstarStarSuffix { suffix_off: off, suffix_len: len })
            ==> globstar_star_suffix_spec(p, o, s) == last_seg_ok(
            o,
            s,
            seg_start(s, o.mode, s.len() as int),
            p.pool_range(off, len),
        ),
        p.shape == (FastShape::EndsWithLiteral {
            tail_off: off,
            tail_len: len,
            tail_packed: if len <= 8 { packed_of(p.pool@, off, len) } else { 0 },
        }) ==> ends_with_literal_spec(p, o, s) == last_seg_ok(
            o,
            s,
            seg_start(s, o.mode, s.len() as int),
            p.pool_range(off, len),
        ),
{
    let need = p.pool_range(off, len);
    let n = s.len() as int;
    let ss = seg_start(s, o.mode, n);
    lemma_suffix_hit(p, o, s, off, len);
    lemma_seg_start(s, o.mode, n);
    lemma_seg_end_unique(s, o.mode, ss, n);
    if len <= 8 && !o.nocase && n >= len {
        let t = tail_of(s, len as int);
        assert(need =~= p.pool@.subrange(off as int, off + len));
        lemma_pack_bound(need);
        lemma_pack_bound(t);
        lemma_pow256_mono(len as nat, 8);
        assert(pow256(8) == 0x1_0000_0000_0000_0000) by {
            reveal_with_fuel(pow256, 9);
        }
        assert(packed_of(p.pool@, off, len) as int == pack_spec(need));
        if pack_spec(t) == pack_spec(need) {
            lemma_pack_injective(t, need);
        }
        assert(t == s.subrange(n - len, n));
        if cased_eq(t, need, false) {
            assert(t =~= need);
        }
    }
}

/// A successful run of a compiled program passes its prefilter.
proof fn lemma_run_prefilter(pat: Seq<u8>, o: MatchOptions, g: CompiledGlob, s: Seq<u8>)
    requires
        compiled_ok(pat, o, Ok(g)),
        run(g.program, o, s, 0, 0, g.program.code@.len() as int, true) is Some,
    ensures
        prefilter_spec(g.program, o, s),
{
    let v = pattern_spec(pat, o)->Done_0;
    let e = emit_seq(no_emission(), v.1, true, o.nocase);
    let p = g.program;
    let n = p.code@.len() as int;
    lemma_seq(no_emission(), v.1, true, o.nocase);
    assert(laid_out(no_emission()));
    lemma_top_walk(no_emission(), v.1, o.nocase);
    if let Some(pf) = p.prefilter {
        if pf.1 >= 2 {
            let x = choose|x: int| visits(e.code, 0, e.code.len() as int, x) && e.code[x] == (Instr::Literal {
                off: pf.0,
                len: pf.1,
            });
            lemma_run_sees(p, o, s, 0, 0, n, true, x);
            assert(lit_found(p, s, x, o.nocase));
        }
    }
}

/// A fast path never changes the answer of the general matcher: for every compiled pattern
/// (matched whole, not anywhere in the input), the matcher chosen for its shape accepts
/// exactly the strings the whole program accepts, prefilter included; so, without basename
/// matching, `matches` is the general matcher's answer, flipped when the pattern is negated.
pub proof fn law_fast_paths_agree(pat: Seq<u8>, o: MatchOptions, g: CompiledGlob, s: Seq<u8>)
    requires
        compiled_ok(pat, o, Ok(g)),
        !o.contains,
    ensures
        base_spec(g.program.base_matcher_fn, g.program, g.opts, s) == anchored_spec(g.program, g.opts, s),
        !o.match_base ==> matches_spec(g.program, g.opts, s) == (g.program.negated != anchored_spec(
            g.program,
            g.opts,
            s,
        )),
{
    let v = pattern_spec(pat, o)->Done_0;
    let e = emit_seq(no_emission(), v.1, true, o.nocase);
    let d = detect(e.code, e.pool, e.alts);
    let p = g.program;
    let n = s.len() as int;
    assert(p.code@ == e.code);
    assert(p.shape == d.shape);
    assert(p.base_matcher_fn == matcher_for(d.shape, o));
    assert(p.wf());
    match d.shape {
        FastShape::Literal => {
            assert(d.pool == e.pool);
            assert(no_group_code(p.code@));
            lemma_compiled_prefix(pat, o, g, 1);
            lemma_lit_prefix(p, o, s, 1, 0, 1);
            lemma_seq(no_emission(), v.1, true, o.nocase);
            assert(laid_out(no_emission()));
            assert(p.pool@.len() == litsum(p.code@, 1));
            assert(p.pool@.subrange(0, p.pool@.len() as int) =~= p.pool@);
            if s.len() == p.pool@.len() {
                assert(s.subrange(0, s.len() as int) =~= s);
            }
            if cased_eq(s, p.pool@, o.nocase) {
                lemma_run_prefilter(pat, o, g, s);
            }
        },
        FastShape::PrefixStar { prefix_len } => {
            let code = p.code@;
            let k = code.len() - 1;
            assert(d.pool == e.pool);
            crate::layout::lemma_lit_run_is_litsum(code, 0, k);
            assert forall|pc: int| 0 <= pc < code.len() implies !((#[trigger] code[pc]) is BraceOpen || code[pc] is ExtglobOpen) by {
                if pc < k {
                    assert(code[pc] is Literal);
                }
            }
            lemma_compiled_prefix(pat, o, g, k);
            assert(p.wf());
            lemma_run_prefix_star(p, o, s, k);
            if prefix_star_spec(p, o, s) {
                lemma_run_prefilter(pat, o, g, s);
            }
        },
        FastShape::PrefixStarSuffix { prefix_len, suffix_off, suffix_len } => {
            let code = p.code@;
            assert(d.pool == e.pool);
            crate::compile::lemma_single_star_range(code, 0, None);
            let k = crate::compile::single_star(code, 0, None)->0;
            crate::layout::lemma_lit_run_is_litsum(code, 0, k);
            assert(code.len() == k + 2);
            assert(crate::compile::instr_ok(p, code[k + 1]));
            assert forall|pc: int| 0 <= pc < code.len() implies !((#[trigger] code[pc]) is BraceOpen || code[pc] is ExtglobOpen) by {
                if pc < k {
                    assert(code[pc] is Literal);
                }
            }
            lemma_compiled_prefix(pat, o, g, k);
            assert(p.wf());
            assert(star_tail_code(p, k, suffix_off, suffix_len));
            lemma_run_prefix_star_suffix(p, o, s, k, suffix_off, suffix_len);
            if prefix_star_suffix_spec(p, o, s) {
                lemma_run_prefilter(pat, o, g, s);
            }
        },
        FastShape::GlobstarLiteral { suffix_off, suffix_len } => {
            assert(d.pool == e.pool);
            assert(crate::compile::instr_ok(p, p.code@[2]));
            assert(globstar_literal_code(p, suffix_off, suffix_len));
            lemma_run_globstar_literal(p, o, s, suffix_off, suffix_len);
            if tail_after_sep(o, s, p.pool_range(suffix_off, suffix_len)) {
                lemma_run_prefilter(pat, o, g, s);
            }
        },
        FastShape::GlobstarStarSuffix { suffix_off, suffix_len } => {
            assert(d.pool == e.pool);
            assert(crate::compile::instr_ok(p, p.code@[3]));
            assert(star_suffix_code(p, suffix_off, suffix_len));
            lemma_run_star_suffix(p, o, s, suffix_off, suffix_len);
            lemma_star_suffix_specs(p, o, s, suffix_off, suffix_len);
            if last_seg_ok(o, s, seg_start(s, o.mode, n), p.pool_range(suffix_off, suffix_len)) {
                lemma_run_prefilter(pat, o, g, s);
            }
        },
        FastShape::EndsWithLiteral { tail_off, tail_len, tail_packed } => {
            assert(d.pool == e.pool);
            assert(crate::compile::instr_ok(p, p.code@[3]));
            assert(star_suffix_code(p, tail_off, tail_len));
            lemma_run_star_suffix(p, o, s, tail_off, tail_len);
            lemma_star_suffix_specs(p, o, s, tail_off, tail_len);
            if last_seg_ok(o, s, seg_start(s, o.mode, n), p.pool_range(tail_off, tail_len)) {
                lemma_run_prefilter(pat, o, g, s);
            }
        },
        FastShape::GlobstarStarSuffixes { suffixes_off, suffixes_len } => {
            let a = p.code@[3]->BraceOpen_alts.0 as int;
            let b = p.code@[3]->BraceOpen_alts.1 as int;
            assert(crate::compile::instr_ok(p, p.code@[3]));
            assert forall|i: int| a <= i < b implies (#[trigger] alt_literal(p.code@, p.alt_table@, i)->0).0
                + (alt_literal(p.code@, p.alt_table@, i)->0).1 <= p.pool@.len() by {
                assert(plain_alt(p.code@, p.pool@, p.alt_table@, i));
                assert(crate::compile::instr_ok(p, p.code@[p.alt_table@[i] as int]));
            }
            assert forall|i: int| a <= i < b implies 3 < #[trigger] p.alt_table@[i] by {
                assert(plain_alt(p.code@, p.pool@, p.alt_table@, i));
            }
            assert(star_group_code(p, a, b));
            lemma_run_star_group(p, o, s, a, b);
            lemma_suffixes_spec(p, o, s, a, b);
            if group_ok(p, o, s, a, b, seg_start(s, o.mode, n)) {
                lemma_run_prefilter(pat, o, g, s);
            }
        },
        FastShape::DottedExtensions { exts_off, exts_len } => {
            let code = e.code;
            let nc = code.len() as int;
            let head = nc >= 3 && code[0] is Globstar && code[1] is Sep && code[2] is Star;
            if head && nc >= 6 && code[3] is Literal && code[4] is BraceOpen && code[4]->BraceOpen_end == nc
                && code[3]->Literal_len == 1 && e.pool[code[3]->Literal_off as int] == 46u8 && all_plain(
                code,
                e.pool,
                e.alts,
                code[4]->BraceOpen_alts.0 as int,
                code[4]->BraceOpen_alts.1 as int,
            ) && code[4]->BraceOpen_alts.0 < code[4]->BraceOpen_alts.1 && exts_fit(
                code,
                e.pool,
                e.alts,
                code[4]->BraceOpen_alts.0 as int,
                code[4]->BraceOpen_alts.1 as int,
                true,
            ) {
                let a = code[4]->BraceOpen_alts.0 as int;
                let b = code[4]->BraceOpen_alts.1 as int;
                assert(d == dotted_shape(code, e.pool, e.alts, a, b, true));
                lemma_seq(no_emission(), v.1, true, o.nocase);
                assert(laid_out(no_emission()));
                lemma_dotted_with_dot(pat, o, g, s, e, a, b);
            } else {
                let a = code[3]->BraceOpen_alts.0 as int;
                let b = code[3]->BraceOpen_alts.1 as int;
                assert(d == dotted_shape(code, e.pool, e.alts, a, b, false));
                lemma_seq(no_emission(), v.1, true, o.nocase);
                assert(laid_out(no_emission()));
                lemma_dotted_alts(pat, o, g, s, e, a, b);
            }
        },
        _ => {},
    }
}

/// The literal alternative `i` of a brace group consists of.
pub open spec fn alt_lit(p: Program, i: int) -> Seq<u8> {
    pool_bytes(p.pool@, alt_literal(p.code@, p.alt_table@, i)->0)
}

/// A brace group at `gpc` that ends the program, whose alternatives `a..b` are literals
/// without a separator placed after it.
pub open spec fn group_at(p: Program, gpc: int, a: int, b: int) -> bool {
    let n = p.code@.len() as int;
    &&& 0 <= gpc < n
    &&& p.code@[gpc] matches Instr::BraceOpen { alts, end } && alts.0 == a && alts.1 == b && end == n
    &&& 0 <= a < b <= p.alt_table@.len()
    &&& all_plain(p.code@, p.pool@, p.alt_table@, a, b)
    &&& forall|i: int|
        a <= i < b ==> (#[trigger] alt_literal(p.code@, p.alt_table@, i)->0).0 + (alt_literal(
            p.code@,
            p.alt_table@,
            i,
        )->0).1 <= p.pool@.len()
    &&& forall|i: int| a <= i < b ==> gpc < #[trigger] p.alt_table@[i]
}

/// The code of `**/*{..}` whose alternatives `a..b` are literals without a separator.
pub open spec fn star_group_code(p: Program, a: int, b: int) -> bool {
    &&& p.code@.len() >= 5
    &&& p.code@[0] is Globstar
    &&& p.code@[1] is Sep
    &&& p.code@[2] is Star
    &&& group_at(p, 3, a, b)
}

/// Alternative `j` matches from `x` to the end of the input.
pub open spec fn alt_ends(p: Program, o: MatchOptions, s: Seq<u8>, j: int, x: int) -> bool {
    occurs_at(s, alt_lit(p, j), x, o.nocase) && x + alt_lit(p, j).len() == s.len()
}

/// Some alternative `k..b` matches from `x` to the end of the input.
pub open spec fn group_ends(p: Program, o: MatchOptions, s: Seq<u8>, k: int, b: int, x: int) -> bool {
    exists|j: int| k <= j < b && #[trigger] alt_ends(p, o, s, j, x)
}

/// The group at `gpc` tries its alternatives from `i` on.
proof fn lemma_group_alts(p: Program, o: MatchOptions, s: Seq<u8>, gpc: int, a: int, b: int, x: int, at: bool, i: int)
    requires
        group_at(p, gpc, a, b),
        !o.contains,
        0 <= x <= s.len(),
        a <= i <= b,
    ensures
        brace_alts(p, o, s, gpc, x, p.code@.len() as int, at, b, p.code@.len() as int, i) == if group_ends(
            p,
            o,
            s,
            i,
            b,
            x,
        ) {
            Some(s.len() as int)
        } else {
            None
        },
    decreases b - i,
{
    let n = s.len() as int;
    let nc = p.code@.len() as int;
    if i < b {
        lemma_group_alts(p, o, s, gpc, a, b, x, at, i + 1);
        assert(plain_alt(p.code@, p.pool@, p.alt_table@, i));
        let (off, len) = alt_literal(p.code@, p.alt_table@, i)->0;
        let alt = p.alt_table@[i] as int;
        let need = p.pool_range(off, len);
        assert(need == alt_lit(p, i));
        assert(need.len() == len);
        assert(gpc < alt);
        let inner = run(p, o, s, alt + 1, x + len, nc - 1, len > 0 && sep_spec(o.mode, need[len - 1]));
        assert(inner == Some(x + len));
        assert(alt_run(p, o, s, gpc, nc, nc, i, x, at) == if x + len <= n && cased_eq(
            s.subrange(x, x + len),
            need,
            o.nocase,
        ) {
            Some(x + len)
        } else {
            None
        });
        if x + len <= n {
            assert(run(p, o, s, nc, x + len, nc, false) == if x + len == n { Some(n) } else { None });
        }
        if group_ends(p, o, s, i, b, x) {
            let j = choose|j: int| i <= j < b && #[trigger] alt_ends(p, o, s, j, x);
            if j > i {
                assert(group_ends(p, o, s, i + 1, b, x));
            }
        }
        if group_ends(p, o, s, i + 1, b, x) {
            let j = choose|j: int| i + 1 <= j < b && #[trigger] alt_ends(p, o, s, j, x);
            assert(group_ends(p, o, s, i, b, x));
        }
        if alt_ends(p, o, s, i, x) {
            assert(group_ends(p, o, s, i, b, x));
        }
    }
}

/// Some alternative matches from an index `x` of `q..=probe` to the end of the input.
pub open spec fn group_ends_in(p: Program, o: MatchOptions, s: Seq<u8>, a: int, b: int, q: int, probe: int) -> bool {
    exists|x: int| q <= x <= probe && #[trigger] group_ends(p, o, s, a, b, x)
}

/// `*` before the group tries the longest stretch first, then shorter ones.
proof fn lemma_group_back(p: Program, o: MatchOptions, s: Seq<u8>, a: int, b: int, q: int, probe: int)
    requires
        star_group_code(p, a, b),
        !o.contains,
        0 <= q <= probe <= s.len(),
    ensures
        star_back(p, o, s, 2, q, p.code@.len() as int, probe) == if group_ends_in(p, o, s, a, b, q, probe) {
            Some(s.len() as int)
        } else {
            None
        },
    decreases probe - q,
{
    let nc = p.code@.len() as int;
    lemma_group_alts(p, o, s, 3, a, b, probe, false, a);
    assert(run(p, o, s, 3, probe, nc, false) == brace_alts(p, o, s, 3, probe, nc, false, b, nc, a));
    if probe > q {
        lemma_group_back(p, o, s, a, b, q, probe - 1);
        if group_ends_in(p, o, s, a, b, q, probe - 1) {
            let x = choose|x: int| q <= x <= probe - 1 && #[trigger] group_ends(p, o, s, a, b, x);
            assert(group_ends_in(p, o, s, a, b, q, probe));
        }
    }
    if group_ends(p, o, s, a, b, probe) {
        assert(group_ends_in(p, o, s, a, b, q, probe));
    }
    if group_ends_in(p, o, s, a, b, q, probe) {
        let x = choose|x: int| q <= x <= probe && #[trigger] group_ends(p, o, s, a, b, x);
        if x < probe {
            assert(group_ends_in(p, o, s, a, b, q, probe - 1));
        }
    }
}

/// Some alternative is the end of the input from `q` on, as `last_seg_ok` says.
pub open spec fn group_ok(p: Program, o: MatchOptions, s: Seq<u8>, a: int, b: int, q: int) -> bool {
    exists|j: int| a <= j < b && #[trigger] last_seg_ok(o, s, q, alt_lit(p, j))
}

/// Alternative `j` holds no separator and has its length.
proof fn lemma_alt_lit(p: Program, gpc: int, a: int, b: int, j: int)
    requires
        group_at(p, gpc, a, b),
        a <= j < b,
    ensures
        !has_slash_byte(alt_lit(p, j)),
        alt_lit(p, j).len() == (alt_literal(p.code@, p.alt_table@, j)->0).1,
{
    assert(plain_alt(p.code@, p.pool@, p.alt_table@, j));
    assert((alt_literal(p.code@, p.alt_table@, j)->0).0 + (alt_literal(p.code@, p.alt_table@, j)->0).1
        <= p.pool@.len());
}

/// `*{..}` at the end of the program, from index `q`.
proof fn lemma_group_star(p: Program, o: MatchOptions, s: Seq<u8>, a: int, b: int, q: int)
    requires
        star_group_code(p, a, b),
        !o.contains,
        0 <= q <= s.len(),
    ensures
        run(p, o, s, 2, q, p.code@.len() as int, true) == if group_ok(p, o, s, a, b, q) {
            Some(s.len() as int)
        } else {
            None
        },
{
    let n = s.len() as int;
    let nc = p.code@.len() as int;
    lemma_seg_end(s, o.mode, q);
    let se = seg_end(s, o.mode, q);
    if q < n && s[q] == 46u8 && !o.dot {
        lemma_group_alts(p, o, s, 3, a, b, q, true, a);
        assert(run(p, o, s, 3, q, nc, true) == brace_alts(p, o, s, 3, q, nc, true, b, nc, a));
        assert(run(p, o, s, 2, q, nc, true) == star_case(p, o, s, 2, q, nc, true));
        if group_ends(p, o, s, a, b, q) {
            let j = choose|j: int| a <= j < b && #[trigger] alt_ends(p, o, s, j, q);
            lemma_alt_lit(p, 3, a, b, j);
            lemma_cased_no_sep(s.subrange(q, n), alt_lit(p, j), o.nocase, o.mode);
            assert forall|k: int| q <= k < n implies !sep_spec(o.mode, #[trigger] s[k]) by {
                assert(s[k] == s.subrange(q, n)[k - q]);
            }
            lemma_seg_end_unique(s, o.mode, q, n);
            assert(last_seg_ok(o, s, q, alt_lit(p, j)));
        }
        if group_ok(p, o, s, a, b, q) {
            let j = choose|j: int| a <= j < b && #[trigger] last_seg_ok(o, s, q, alt_lit(p, j));
            assert(alt_ends(p, o, s, j, q));
        }
    } else {
        lemma_group_back(p, o, s, a, b, q, se);
        assert(lit_of(p, 3) is None);
        assert(star_case(p, o, s, 2, q, nc, true) == star_back(p, o, s, 2, q, nc, se));
        assert(run(p, o, s, 2, q, nc, true) == star_case(p, o, s, 2, q, nc, true));
        if group_ends_in(p, o, s, a, b, q, se) {
            let x = choose|x: int| q <= x <= se && #[trigger] group_ends(p, o, s, a, b, x);
            let j = choose|j: int| a <= j < b && #[trigger] alt_ends(p, o, s, j, x);
            lemma_alt_lit(p, 3, a, b, j);
            lemma_cased_no_sep(s.subrange(x, n), alt_lit(p, j), o.nocase, o.mode);
            assert forall|k: int| q <= k < n implies !sep_spec(o.mode, #[trigger] s[k]) by {
                if k >= x {
                    assert(s[k] == s.subrange(x, n)[k - x]);
                }
            }
            lemma_seg_end_unique(s, o.mode, q, n);
            assert(last_seg_ok(o, s, q, alt_lit(p, j)));
        }
        if group_ok(p, o, s, a, b, q) {
            let j = choose|j: int| a <= j < b && #[trigger] last_seg_ok(o, s, q, alt_lit(p, j));
            let x = n - alt_lit(p, j).len();
            assert(alt_ends(p, o, s, j, x));
            assert(group_ends(p, o, s, a, b, x));
            assert(group_ends_in(p, o, s, a, b, q, se));
        }
    }
}

/// The whole `**/*{..}` program.
proof fn lemma_run_star_group(p: Program, o: MatchOptions, s: Seq<u8>, a: int, b: int)
    requires
        star_group_code(p, a, b),
        !o.contains,
    ensures
        run(p, o, s, 0, 0, p.code@.len() as int, true) == if group_ok(
            p,
            o,
            s,
            a,
            b,
            seg_start(s, o.mode, s.len() as int),
        ) {
            Some(s.len() as int)
        } else {
            None
        },
{
    let nc = p.code@.len() as int;
    let ok = |q: int| group_ok(p, o, s, a, b, q);
    lemma_seg_start(s, o.mode, s.len() as int);
    assert forall|q: int| 0 <= q <= s.len() implies #[trigger] run(p, o, s, 2, q, nc, true) == if ok(q) {
        Some(s.len() as int)
    } else {
        None
    } by {
        lemma_group_star(p, o, s, a, b, q);
    }
    assert forall|q: int| 0 <= q <= s.len() && #[trigger] ok(q) implies seg_end(s, o.mode, q) == s.len() by {
        let j = choose|j: int| a <= j < b && #[trigger] last_seg_ok(o, s, q, alt_lit(p, j));
    }
    lemma_gloop_tail(p, o, s, nc, ok, 0);
    assert(lit_of(p, 1) is None);
    assert(lit_of(p, 2) is None);
    assert(globstar_case(p, o, s, 0, 0, nc, true) == gloop(p, o, s, 0, 0, nc, true, 0));
}

/// The `**/*{..}` fast path tests each alternative as a suffix of the last segment.
proof fn lemma_suffixes_spec(p: Program, o: MatchOptions, s: Seq<u8>, a: int, b: int)
    requires
        star_group_code(p, a, b),
        p.shape == (FastShape::GlobstarStarSuffixes { suffixes_off: 0, suffixes_len: (b - a) as u32 }),
        b - a <= u32::MAX,
        p.suffix_table@ == Seq::new((b - a) as nat, |k: int| alt_literal(p.code@, p.alt_table@, a + k)->0),
    ensures
        globstar_star_suffixes_spec(p, o, s) == group_ok(p, o, s, a, b, seg_start(s, o.mode, s.len() as int)),
{
    let ss = seg_start(s, o.mode, s.len() as int);
    let t = p.suffix_table@;
    if globstar_star_suffixes_spec(p, o, s) {
        let i = choose|i: int| 0 <= i < 0 + (b - a) && suffix_hit(p, o, s, (#[trigger] t[i]).0, t[i].1);
        lemma_alt_lit(p, 3, a, b, a + i);
        assert(p.pool_range(t[i].0, t[i].1) == alt_lit(p, a + i));
        lemma_suffix_hit(p, o, s, t[i].0, t[i].1);
        assert(last_seg_ok(o, s, ss, alt_lit(p, a + i)));
    }
    if group_ok(p, o, s, a, b, ss) {
        let j = choose|j: int| a <= j < b && #[trigger] last_seg_ok(o, s, ss, alt_lit(p, j));
        let i = j - a;
        lemma_alt_lit(p, 3, a, b, j);
        assert(t[i] == alt_literal(p.code@, p.alt_table@, j)->0);
        assert(p.pool_range(t[i].0, t[i].1) == alt_lit(p, j));
        lemma_suffix_hit(p, o, s, t[i].0, t[i].1);
        assert(suffix_hit(p, o, s, t[i].0, t[i].1));
    }
}

/// The extension entry `x` records where `text` stands in `pool`, its length and its packed
/// first bytes.
pub open spec fn ext_entry_ok(pool: Seq<u8>, x: crate::compile::ExtEntry, text: Seq<u8>) -> bool {
    &&& x.len == text.len()
    &&& x.off + x.len <= pool.len()
    &&& pool.subrange(x.off as int, x.off + x.len) == text
    &&& x.packed == packed_of(pool, x.off, x.len)
}

proof fn lemma_total_len_nonneg(st: Seq<Seq<u8>>)
    ensures
        total_len(st) >= 0,
    decreases st.len(),
{
    if st.len() > 0 {
        lemma_total_len_nonneg(st.subrange(0, st.len() - 1));
    }
}

/// Appending texts to the pool keeps the pool in front and records, for each text, where it
/// stands, its length and its packed first bytes.
proof fn lemma_append_exts_entries(pool: Seq<u8>, st: Seq<Seq<u8>>)
    requires
        pool.len() + total_len(st) <= 0xFFFF_FFFF,
    ensures
        append_exts(pool, st).0.len() == pool.len() + total_len(st),
        append_exts(pool, st).1.len() == st.len(),
        append_exts(pool, st).0.subrange(0, pool.len() as int) == pool,
        forall|k: int|
            0 <= k < st.len() ==> ext_entry_ok(append_exts(pool, st).0, #[trigger] append_exts(pool, st).1[k], st[k]),
    decreases st.len(),
{
    let m = st.len() as int;
    let r = append_exts(pool, st);
    if m == 0 {
        assert(pool.subrange(0, pool.len() as int) =~= pool);
    } else {
        let prev_st = st.subrange(0, m - 1);
        lemma_total_len_nonneg(prev_st);
        assert(total_len(st) == total_len(prev_st) + st[m - 1].len());
        lemma_append_exts_entries(pool, prev_st);
        let prev = append_exts(pool, prev_st);
        let t = st[m - 1];
        let np = prev.0 + t;
        assert(r.0 == np);
        assert(np.subrange(0, pool.len() as int) =~= prev.0.subrange(0, pool.len() as int));
        assert forall|k: int| 0 <= k < m implies ext_entry_ok(r.0, #[trigger] r.1[k], st[k]) by {
            if k < m - 1 {
                let x = prev.1[k];
                assert(r.1[k] == x);
                assert(prev_st[k] == st[k]);
                assert(np.subrange(x.off as int, x.off + x.len) =~= prev.0.subrange(x.off as int, x.off + x.len));
                let w = if x.len <= 8 { x.len as int } else { 8 };
                assert(np.subrange(x.off as int, x.off + w) =~= prev.0.subrange(x.off as int, x.off + w));
            } else {
                assert(np.subrange(prev.0.len() as int, (prev.0.len() + t.len()) as int) =~= t);
            }
        }
    }
}

/// The extension test of the dotted fast path, for one text.
proof fn lemma_ext_cond(p: Program, o: MatchOptions, s: Seq<u8>, x: crate::compile::ExtEntry, text: Seq<u8>)
    requires
        ext_entry_ok(p.pool@, x, text),
        text.len() > 0,
        !has_slash_byte(text),
    ensures
        ({
            let n = s.len() as int;
            let ss = seg_start(s, o.mode, n);
            (n > 0 && n - ss > 0 && n - ss >= x.len && tail_eq_spec(p, o, s, x.off, x.len, x.packed)
                && !(!o.dot && s[ss] == 46u8 && n - ss != x.len)) == last_seg_ok(o, s, ss, text)
        }),
{
    let n = s.len() as int;
    let ss = seg_start(s, o.mode, n);
    let len = x.len;
    lemma_seg_start(s, o.mode, n);
    lemma_seg_end_unique(s, o.mode, ss, n);
    if n - ss >= len {
        let t = tail_of(s, len as int);
        assert(t == s.subrange(n - len, n));
        if len <= 8 && !o.nocase {
            lemma_pack_bound(text);
            lemma_pack_bound(t);
            lemma_pow256_mono(len as nat, 8);
            assert(pow256(8) == 0x1_0000_0000_0000_0000) by {
                reveal_with_fuel(pow256, 9);
            }
            assert(p.pool@.subrange(x.off as int, x.off + len) == text);
            assert(packed_of(p.pool@, x.off, len) as int == pack_spec(text));
            if pack_spec(t) == pack_spec(text) {
                lemma_pack_injective(t, text);
            }
            if cased_eq(t, text, false) {
                assert(t =~= text);
            }
        }
    }
}

/// The dotted fast path tests each extension text as the end of the last segment.
proof fn lemma_dotted_spec(p: Program, o: MatchOptions, s: Seq<u8>, texts: Seq<Seq<u8>>)
    requires
        p.shape == (FastShape::DottedExtensions { exts_off: 0, exts_len: texts.len() as u32 }),
        texts.len() <= u32::MAX,
        p.ext_table@.len() == texts.len(),
        forall|i: int| 0 <= i < texts.len() ==> ext_entry_ok(p.pool@, #[trigger] p.ext_table@[i], texts[i]),
        forall|i: int| 0 <= i < texts.len() ==> (#[trigger] texts[i]).len() > 0 && !has_slash_byte(texts[i]),
    ensures
        dotted_extensions_spec(p, o, s) == exists|i: int|
            0 <= i < texts.len() && #[trigger] last_seg_ok(o, s, seg_start(s, o.mode, s.len() as int), texts[i]),
{
    let n = s.len() as int;
    let ss = seg_start(s, o.mode, n);
    let e = p.ext_table@;
    if dotted_extensions_spec(p, o, s) {
        let i = choose|i: int|
            0 <= i < 0 + texts.len() && n - ss >= (#[trigger] e[i]).len && tail_eq_spec(
                p,
                o,
                s,
                e[i].off,
                e[i].len,
                e[i].packed,
            ) && !(!o.dot && s[ss] == 46u8 && n - ss != e[i].len);
        lemma_ext_cond(p, o, s, e[i], texts[i]);
        assert(last_seg_ok(o, s, ss, texts[i]));
    }
    if exists|i: int| 0 <= i < texts.len() && #[trigger] last_seg_ok(o, s, ss, texts[i]) {
        let i = choose|i: int| 0 <= i < texts.len() && #[trigger] last_seg_ok(o, s, ss, texts[i]);
        lemma_ext_cond(p, o, s, e[i], texts[i]);
        assert(n - ss >= e[i].len && tail_eq_spec(p, o, s, e[i].off, e[i].len, e[i].packed) && !(!o.dot
            && s[ss] == 46u8 && n - ss != e[i].len));
    }
}

/// The code of `**/*.{..}`: a dot literal before a group whose alternatives are literals
/// without a separator.
pub open spec fn dot_group_code(p: Program, off: u32, a: int, b: int) -> bool {
    &&& p.code@.len() >= 6
    &&& p.code@[0] is Globstar
    &&& p.code@[1] is Sep
    &&& p.code@[2] is Star
    &&& p.code@[3] == (Instr::Literal { off, len: 1 })
    &&& off + 1 <= p.pool@.len()
    &&& p.pool@[off as int] == 46u8
    &&& group_at(p, 4, a, b)
}

/// A dot followed by alternative `j`.
pub open spec fn dot_text(p: Program, j: int) -> Seq<u8> {
    seq![46u8] + alt_lit(p, j)
}

/// A dot and some alternative are the end of the input from `q` on.
pub open spec fn dot_group_ok(p: Program, o: MatchOptions, s: Seq<u8>, a: int, b: int, q: int) -> bool {
    exists|j: int| a <= j < b && #[trigger] last_seg_ok(o, s, q, dot_text(p, j))
}

/// A dot at index `t` followed by `l`.
proof fn lemma_occurs_dot(s: Seq<u8>, l: Seq<u8>, t: int, nc: bool)
    ensures
        occurs_at(s, seq![46u8] + l, t, nc) == (0 <= t < s.len() && s[t] == 46u8 && occurs_at(s, l, t + 1, nc)),
{
    let d = seq![46u8] + l;
    if 0 <= t && t + d.len() <= s.len() {
        let w = s.subrange(t, t + d.len());
        assert(w[0] == s[t]);
        assert(s.subrange(t + 1, t + 1 + l.len()) =~= w.subrange(1, d.len() as int));
        if cased_eq(w, d, nc) {
            assert(d[0] == 46u8);
            assert(w[0] == 46u8);
            assert forall|i: int| 0 <= i < l.len() implies (if nc {
                lower_spec(#[trigger] s.subrange(t + 1, t + 1 + l.len())[i]) == l[i]
            } else {
                s.subrange(t + 1, t + 1 + l.len())[i] == l[i]
            }) by {
                assert(w[i + 1] == s.subrange(t + 1, t + 1 + l.len())[i]);
                assert(d[i + 1] == l[i]);
            }
        }
        if s[t] == 46u8 && occurs_at(s, l, t + 1, nc) {
            assert forall|i: int| 0 <= i < w.len() implies (if nc {
                lower_spec(#[trigger] w[i]) == d[i]
            } else {
                w[i] == d[i]
            }) by {
                if i > 0 {
                    assert(w[i] == s.subrange(t + 1, t + 1 + l.len())[i - 1]);
                    assert(d[i] == l[i - 1]);
                }
            }
        }
    }
}

/// A dot then some alternative from an index `x - 1` with `lo <= x <= hi`.
pub open spec fn dot_group_in(p: Program, o: MatchOptions, s: Seq<u8>, a: int, b: int, lo: int, hi: int) -> bool {
    exists|x: int| lo <= x <= hi && s[x - 1] == 46u8 && #[trigger] group_ends(p, o, s, a, b, x)
}

/// `*.` before the group tries each dot of the segment from offset `k` on.
proof fn lemma_dot_skip(p: Program, o: MatchOptions, s: Seq<u8>, off: u32, a: int, b: int, q: int, k: int)
    requires
        dot_group_code(p, off, a, b),
        !o.contains,
        0 <= q <= s.len(),
        0 <= k <= seg_end(s, o.mode, q) - q,
    ensures
        star_skip(p, o, s, 2, q, p.code@.len() as int, p.pool_range(off, 1), k) == if dot_group_in(
            p,
            o,
            s,
            a,
            b,
            q + k + 1,
            seg_end(s, o.mode, q),
        ) {
            Some(s.len() as int)
        } else {
            None
        },
    decreases seg_end(s, o.mode, q) - q - k,
{
    let nc = p.code@.len() as int;
    let need = p.pool_range(off, 1);
    lemma_seg_end(s, o.mode, q);
    let se = seg_end(s, o.mode, q);
    let hay = s.subrange(q, se);
    assert(need =~= seq![46u8]);
    if k < se - q {
        lemma_dot_skip(p, o, s, off, a, b, q, k + 1);
    } else {
        assert(star_skip(p, o, s, 2, q, nc, need, k + 1) is None);
    }
    let x = q + k + 1;
    if x <= se {
        assert(hay.subrange(k, k + 1)[0] == s[q + k]);
        assert(s.subrange(q + k, q + k + 1)[0] == s[q + k]);
        if s[q + k] == 46u8 {
            assert(hay.subrange(k, k + 1) =~= need);
            assert(s.subrange(q + k, q + k + 1) =~= need);
        }
        lemma_group_alts(p, o, s, 4, a, b, x, false, a);
        assert(run(p, o, s, 4, x, nc, false) == brace_alts(p, o, s, 4, x, nc, false, b, nc, a));
        assert(occurs_at(hay, need, k, o.nocase) == (s[q + k] == 46u8));
        if s[q + k] == 46u8 {
            assert(run(p, o, s, 3, q + k, nc, false) == run(p, o, s, 4, x, nc, false));
        }
    }
    if dot_group_in(p, o, s, a, b, x, se) {
        let y = choose|y: int| x <= y <= se && s[y - 1] == 46u8 && #[trigger] group_ends(p, o, s, a, b, y);
        if y > x {
            assert(dot_group_in(p, o, s, a, b, x + 1, se));
        }
    }
    if x + 1 <= se && dot_group_in(p, o, s, a, b, x + 1, se) {
        let y = choose|y: int| x + 1 <= y <= se && s[y - 1] == 46u8 && #[trigger] group_ends(p, o, s, a, b, y);
        assert(dot_group_in(p, o, s, a, b, x, se));
    }
    if x <= se && s[x - 1] == 46u8 && group_ends(p, o, s, a, b, x) {
        assert(dot_group_in(p, o, s, a, b, x, se));
    }
}

/// `*.{..}` at the end of the program, from index `q`.
proof fn lemma_dot_star(p: Program, o: MatchOptions, s: Seq<u8>, off: u32, a: int, b: int, q: int)
    requires
        dot_group_code(p, off, a, b),
        !o.contains,
        0 <= q <= s.len(),
    ensures
        run(p, o, s, 2, q, p.code@.len() as int, true) == if dot_group_ok(p, o, s, a, b, q) {
            Some(s.len() as int)
        } else {
            None
        },
{
    let n = s.len() as int;
    let nc = p.code@.len() as int;
    let need = p.pool_range(off, 1);
    assert(need =~= seq![46u8]);
    lemma_seg_end(s, o.mode, q);
    let se = seg_end(s, o.mode, q);
    if q < n && s[q] == 46u8 && !o.dot {
        lemma_group_alts(p, o, s, 4, a, b, q + 1, false, a);
        assert(run(p, o, s, 4, q + 1, nc, false) == brace_alts(p, o, s, 4, q + 1, nc, false, b, nc, a));
        assert(s.subrange(q, q + 1) =~= need);
        assert(run(p, o, s, 3, q, nc, true) == run(p, o, s, 4, q + 1, nc, false));
        assert(run(p, o, s, 2, q, nc, true) == star_case(p, o, s, 2, q, nc, true));
        if group_ends(p, o, s, a, b, q + 1) {
            let j = choose|j: int| a <= j < b && #[trigger] alt_ends(p, o, s, j, q + 1);
            lemma_alt_lit(p, 4, a, b, j);
            lemma_occurs_dot(s, alt_lit(p, j), q, o.nocase);
            lemma_cased_no_sep(s.subrange(q + 1, n), alt_lit(p, j), o.nocase, o.mode);
            assert forall|k: int| q <= k < n implies !sep_spec(o.mode, #[trigger] s[k]) by {
                if k > q {
                    assert(s[k] == s.subrange(q + 1, n)[k - q - 1]);
                }
            }
            lemma_seg_end_unique(s, o.mode, q, n);
            assert(last_seg_ok(o, s, q, dot_text(p, j)));
        }
        if dot_group_ok(p, o, s, a, b, q) {
            let j = choose|j: int| a <= j < b && #[trigger] last_seg_ok(o, s, q, dot_text(p, j));
            lemma_occurs_dot(s, alt_lit(p, j), q, o.nocase);
            assert(alt_ends(p, o, s, j, q + 1));
        }
    } else {
        lemma_dot_skip(p, o, s, off, a, b, q, 0);
        assert(lit_of(p, 3) == Some(need));
        assert(star_case(p, o, s, 2, q, nc, true) == star_skip(p, o, s, 2, q, nc, need, 0));
        assert(run(p, o, s, 2, q, nc, true) == star_case(p, o, s, 2, q, nc, true));
        if dot_group_in(p, o, s, a, b, q + 1, se) {
            let x = choose|x: int| q + 1 <= x <= se && s[x - 1] == 46u8 && #[trigger] group_ends(p, o, s, a, b, x);
            let j = choose|j: int| a <= j < b && #[trigger] alt_ends(p, o, s, j, x);
            lemma_alt_lit(p, 4, a, b, j);
            lemma_occurs_dot(s, alt_lit(p, j), x - 1, o.nocase);
            lemma_cased_no_sep(s.subrange(x, n), alt_lit(p, j), o.nocase, o.mode);
            assert forall|k: int| q <= k < n implies !sep_spec(o.mode, #[trigger] s[k]) by {
                if k >= x {
                    assert(s[k] == s.subrange(x, n)[k - x]);
                }
            }
            lemma_seg_end_unique(s, o.mode, q, n);
            assert(last_seg_ok(o, s, q, dot_text(p, j)));
        }
        if dot_group_ok(p, o, s, a, b, q) {
            let j = choose|j: int| a <= j < b && #[trigger] last_seg_ok(o, s, q, dot_text(p, j));
            let t = n - dot_text(p, j).len();
            lemma_occurs_dot(s, alt_lit(p, j), t, o.nocase);
            assert(alt_ends(p, o, s, j, t + 1));
            assert(group_ends(p, o, s, a, b, t + 1));
            assert(dot_group_in(p, o, s, a, b, q + 1, se));
        }
    }
}

/// The whole `**/*.{..}` program.
proof fn lemma_run_dot_group(p: Program, o: MatchOptions, s: Seq<u8>, off: u32, a: int, b: int)
    requires
        dot_group_code(p, off, a, b),
        !o.contains,
    ensures
        run(p, o, s, 0, 0, p.code@.len() as int, true) == if dot_group_ok(
            p,
            o,
            s,
            a,
            b,
            seg_start(s, o.mode, s.len() as int),
        ) {
            Some(s.len() as int)
        } else {
            None
        },
{
    let nc = p.code@.len() as int;
    let ok = |q: int| dot_group_ok(p, o, s, a, b, q);
    lemma_seg_start(s, o.mode, s.len() as int);
    assert forall|q: int| 0 <= q <= s.len() implies #[trigger] run(p, o, s, 2, q, nc, true) == if ok(q) {
        Some(s.len() as int)
    } else {
        None
    } by {
        lemma_dot_star(p, o, s, off, a, b, q);
    }
    assert forall|q: int| 0 <= q <= s.len() && #[trigger] ok(q) implies seg_end(s, o.mode, q) == s.len() by {
        let j = choose|j: int| a <= j < b && #[trigger] last_seg_ok(o, s, q, dot_text(p, j));
    }
    lemma_gloop_tail(p, o, s, nc, ok, 0);
    assert(lit_of(p, 1) is None);
    assert(lit_of(p, 2) is None);
    assert(globstar_case(p, o, s, 0, 0, nc, true) == gloop(p, o, s, 0, 0, nc, true, 0));
}

/// Each literal of a laid-out emission stands inside its pool.
proof fn lemma_lit_in_pool(e: Emission, pc: int)
    requires
        laid_out(e),
        0 <= pc < e.code.len(),
        e.code[pc] is Literal,
    ensures
        e.code[pc]->Literal_off + e.code[pc]->Literal_len <= e.pool.len(),
{
    lemma_litsum_nonneg(e.code, e.code.len() as int);
    assert(litsum(e.code, pc + 1) == litsum(e.code, pc) + e.code[pc]->Literal_len);
}

/// The pool grown by the extension texts keeps the emitted pool, so alternative `i` of the
/// group reads the same bytes in either.
proof fn lemma_alt_in_grown_pool(p: Program, e: Emission, i: int)
    requires
        laid_out(e),
        p.code@ == e.code,
        p.alt_table@ == e.alts,
        p.pool@.len() >= e.pool.len(),
        p.pool@.subrange(0, e.pool.len() as int) == e.pool,
        0 <= i < e.alts.len(),
        alt_literal(e.code, e.alts, i) is Some,
    ensures
        alt_lit(p, i) == pool_bytes(e.pool, alt_literal(e.code, e.alts, i)->0),
        (alt_literal(e.code, e.alts, i)->0).0 + (alt_literal(e.code, e.alts, i)->0).1 <= e.pool.len(),
{
    let pc = e.alts[i] as int;
    lemma_lit_in_pool(e, pc);
    let (off, len) = alt_literal(e.code, e.alts, i)->0;
    assert forall|k: int| 0 <= k < len implies #[trigger] p.pool@.subrange(off as int, off + len)[k]
        == e.pool.subrange(off as int, off + len)[k] by {
        assert(p.pool@[off + k] == p.pool@.subrange(0, e.pool.len() as int)[off + k]);
    }
    assert(p.pool@.subrange(off as int, off + len) =~= e.pool.subrange(off as int, off + len));
}

/// The dotted fast path and the general matcher agree when shape detection found a group of
/// texts `st` whose run is `vm`: both answer whether some text ends the last segment.
proof fn lemma_dotted_finish(
    pat: Seq<u8>,
    o: MatchOptions,
    g: CompiledGlob,
    s: Seq<u8>,
    st: Seq<Seq<u8>>,
    vm: bool,
)
    requires
        compiled_ok(pat, o, Ok(g)),
        g.program.base_matcher_fn == MatcherFn::DottedExtensions,
        g.program.shape == (FastShape::DottedExtensions { exts_off: 0, exts_len: st.len() as u32 }),
        st.len() <= u32::MAX,
        g.program.ext_table@.len() == st.len(),
        forall|i: int| 0 <= i < st.len() ==> ext_entry_ok(g.program.pool@, #[trigger] g.program.ext_table@[i], st[i]),
        forall|i: int| 0 <= i < st.len() ==> (#[trigger] st[i]).len() > 0 && !has_slash_byte(st[i]),
        run(g.program, o, s, 0, 0, g.program.code@.len() as int, true) == if vm {
            Some(s.len() as int)
        } else {
            None
        },
        vm == exists|i: int|
            0 <= i < st.len() && #[trigger] last_seg_ok(o, s, seg_start(s, o.mode, s.len() as int), st[i]),
    ensures
        base_spec(g.program.base_matcher_fn, g.program, g.opts, s) == anchored_spec(g.program, g.opts, s),
{
    lemma_dotted_spec(g.program, o, s, st);
    if vm {
        lemma_run_prefilter(pat, o, g, s);
    }
}

/// A byte string with a dot in front holds a separator byte only where the rest does.
proof fn lemma_dot_no_slash(l: Seq<u8>)
    requires
        !has_slash_byte(l),
    ensures
        !has_slash_byte(seq![46u8] + l),
        (seq![46u8] + l).len() > 0,
{
    let d = seq![46u8] + l;
    assert forall|i: int| 0 <= i < d.len() implies !(#[trigger] d[i] == 47u8 || d[i] == 92u8) by {
        if i > 0 {
            assert(d[i] == l[i - 1]);
        }
    }
}

/// What alternative `i` of a group after a dot literal gives the program that holds it.
proof fn lemma_plain_alt_facts(p: Program, e: Emission, i: int)
    requires
        laid_out(e),
        p.code@ == e.code,
        p.alt_table@ == e.alts,
        p.pool@.len() >= e.pool.len(),
        p.pool@.subrange(0, e.pool.len() as int) == e.pool,
        0 <= i < e.alts.len(),
        plain_alt(e.code, e.pool, e.alts, i),
        e.code.len() >= 5,
        e.code[0] is Globstar && e.code[1] is Sep && e.code[2] is Star && e.code[4] is BraceOpen,
    ensures
        alt_lit(p, i) == pool_bytes(e.pool, alt_literal(e.code, e.alts, i)->0),
        (alt_literal(p.code@, p.alt_table@, i)->0).0 + (alt_literal(p.code@, p.alt_table@, i)->0).1
            <= p.pool@.len(),
        4 < p.alt_table@[i],
        plain_alt(p.code@, p.pool@, p.alt_table@, i),
        !has_slash_byte(alt_lit(p, i)),
{
    lemma_alt_in_grown_pool(p, e, i);
}

/// `**/*.{..}` compiled as a dot literal before the group.
proof fn lemma_dotted_with_dot(pat: Seq<u8>, o: MatchOptions, g: CompiledGlob, s: Seq<u8>, e: Emission, a: int, b: int)
    requires
        compiled_ok(pat, o, Ok(g)),
        !o.contains,
        laid_out(e),
        g.program.code@ == e.code,
        g.program.alt_table@ == e.alts,
        g.program.wf(),
        e.code.len() >= 6,
        e.code[0] is Globstar && e.code[1] is Sep && e.code[2] is Star,
        e.code[3] is Literal && e.code[3]->Literal_len == 1,
        e.pool[e.code[3]->Literal_off as int] == 46u8,
        0 <= a <= b <= u32::MAX,
        e.code.len() <= u32::MAX,
        e.code[4] == (Instr::BraceOpen { alts: (a as u32, b as u32), end: e.code.len() as u32 }),
        a < b,
        all_plain(e.code, e.pool, e.alts, a, b),
        exts_fit(e.code, e.pool, e.alts, a, b, true),
        g.program.pool@ == append_exts(e.pool, staged(e.code, e.pool, e.alts, a, b, true)).0,
        g.program.ext_table@ == append_exts(e.pool, staged(e.code, e.pool, e.alts, a, b, true)).1,
        g.program.shape == (FastShape::DottedExtensions { exts_off: 0, exts_len: (b - a) as u32 }),
        g.program.base_matcher_fn == MatcherFn::DottedExtensions,
    ensures
        base_spec(g.program.base_matcher_fn, g.program, g.opts, s) == anchored_spec(g.program, g.opts, s),
{
    let p = g.program;
    let code = e.code;
    let off3 = code[3]->Literal_off;
    let st = staged(code, e.pool, e.alts, a, b, true);
    lemma_append_exts_entries(e.pool, st);
    lemma_total_len_nonneg(st);
    let pool = p.pool@;
    assert(crate::compile::instr_ok(p, code[4]));
    lemma_lit_in_pool(e, 3);
    assert(pool[off3 as int] == pool.subrange(0, e.pool.len() as int)[off3 as int]);
    assert forall|i: int| a <= i < b implies (#[trigger] alt_literal(p.code@, p.alt_table@, i)->0).0 + (
    alt_literal(p.code@, p.alt_table@, i)->0).1 <= p.pool@.len() by {
        assert(plain_alt(e.code, e.pool, e.alts, i));
        lemma_plain_alt_facts(p, e, i);
    }
    assert forall|i: int| a <= i < b implies 4 < #[trigger] p.alt_table@[i] by {
        assert(plain_alt(e.code, e.pool, e.alts, i));
        lemma_plain_alt_facts(p, e, i);
    }
    assert forall|i: int| a <= i < b implies #[trigger] plain_alt(p.code@, p.pool@, p.alt_table@, i) by {
        assert(plain_alt(e.code, e.pool, e.alts, i));
        lemma_plain_alt_facts(p, e, i);
    }
    assert(group_at(p, 4, a, b));
    assert(dot_group_code(p, off3, a, b));
    lemma_run_dot_group(p, o, s, off3, a, b);
    let ss = seg_start(s, o.mode, s.len() as int);
    lemma_dot_texts(p, e, a, b);
    lemma_dot_texts_ok(p, o, s, ss, st, a, b);
    lemma_dotted_finish(pat, o, g, s, st, dot_group_ok(p, o, s, a, b, ss));
}

/// The texts staged for a group after a dot literal are the dot texts of its alternatives.
proof fn lemma_dot_texts(p: Program, e: Emission, a: int, b: int)
    requires
        laid_out(e),
        p.code@ == e.code,
        p.alt_table@ == e.alts,
        p.pool@.len() >= e.pool.len(),
        p.pool@.subrange(0, e.pool.len() as int) == e.pool,
        0 <= a <= b <= e.alts.len(),
        all_plain(e.code, e.pool, e.alts, a, b),
        e.code.len() >= 5,
        e.code[0] is Globstar && e.code[1] is Sep && e.code[2] is Star && e.code[4] is BraceOpen,
    ensures
        staged(e.code, e.pool, e.alts, a, b, true).len() == b - a,
        forall|i: int|
            0 <= i < b - a ==> #[trigger] staged(e.code, e.pool, e.alts, a, b, true)[i] == dot_text(p, a + i)
                && dot_text(p, a + i).len() > 0 && !has_slash_byte(dot_text(p, a + i)),
{
    assert forall|i: int| 0 <= i < b - a implies #[trigger] staged(e.code, e.pool, e.alts, a, b, true)[i]
        == dot_text(p, a + i) && dot_text(p, a + i).len() > 0 && !has_slash_byte(dot_text(p, a + i)) by {
        assert(plain_alt(e.code, e.pool, e.alts, a + i));
        lemma_plain_alt_facts(p, e, a + i);
        lemma_dot_no_slash(alt_lit(p, a + i));
    }
}

/// Some dot text ends the last segment exactly when some staged text does.
proof fn lemma_dot_texts_ok(p: Program, o: MatchOptions, s: Seq<u8>, ss: int, st: Seq<Seq<u8>>, a: int, b: int)
    requires
        st.len() == b - a,
        forall|i: int| 0 <= i < b - a ==> #[trigger] st[i] == dot_text(p, a + i),
    ensures
        dot_group_ok(p, o, s, a, b, ss) == exists|i: int| 0 <= i < st.len() && #[trigger] last_seg_ok(o, s, ss, st[i]),
{
    if dot_group_ok(p, o, s, a, b, ss) {
        let j = choose|j: int| a <= j < b && #[trigger] last_seg_ok(o, s, ss, dot_text(p, j));
        assert(st[j - a] == dot_text(p, j));
    }
    if exists|i: int| 0 <= i < st.len() && #[trigger] last_seg_ok(o, s, ss, st[i]) {
        let i = choose|i: int| 0 <= i < st.len() && #[trigger] last_seg_ok(o, s, ss, st[i]);
        assert(st[i] == dot_text(p, a + i));
        assert(last_seg_ok(o, s, ss, dot_text(p, a + i)));
    }
}

/// What alternative `i` of a dotted group gives the program that holds it.
proof fn lemma_dotted_alt_facts(p: Program, e: Emission, i: int)
    requires
        laid_out(e),
        p.code@ == e.code,
        p.alt_table@ == e.alts,
        p.pool@.len() >= e.pool.len(),
        p.pool@.subrange(0, e.pool.len() as int) == e.pool,
        0 <= i < e.alts.len(),
        dotted_alt(e.code, e.pool, e.alts, i),
        e.code.len() >= 4,
        e.code[0] is Globstar && e.code[1] is Sep && e.code[2] is Star && e.code[3] is BraceOpen,
    ensures
        alt_lit(p, i) == pool_bytes(e.pool, alt_literal(e.code, e.alts, i)->0),
        (alt_literal(p.code@, p.alt_table@, i)->0).0 + (alt_literal(p.code@, p.alt_table@, i)->0).1
            <= p.pool@.len(),
        3 < p.alt_table@[i],
        plain_alt(p.code@, p.pool@, p.alt_table@, i),
        alt_lit(p, i).len() > 0,
        !has_slash_byte(alt_lit(p, i)),
{
    lemma_alt_in_grown_pool(p, e, i);
}

/// `**/*{.a,.b}` compiled as a group whose alternatives start with a dot.
#[verifier::rlimit(40)]
proof fn lemma_dotted_alts(pat: Seq<u8>, o: MatchOptions, g: CompiledGlob, s: Seq<u8>, e: Emission, a: int, b: int)
    requires
        compiled_ok(pat, o, Ok(g)),
        !o.contains,
        e == emit_seq(no_emission(), pattern_spec(pat, o)->Done_0.1, true, o.nocase),
        laid_out(e),
        g.program.code@ == e.code,
        g.program.alt_table@ == e.alts,
        g.program.wf(),
        e.code.len() >= 6,
        e.code[0] is Globstar && e.code[1] is Sep && e.code[2] is Star,
        0 <= a <= b <= u32::MAX,
        e.code.len() <= u32::MAX,
        e.code[3] == (Instr::BraceOpen { alts: (a as u32, b as u32), end: e.code.len() as u32 }),
        all_dotted(e.code, e.pool, e.alts, a, b),
        exts_fit(e.code, e.pool, e.alts, a, b, false),
        g.program.pool@ == append_exts(e.pool, staged(e.code, e.pool, e.alts, a, b, false)).0,
        g.program.ext_table@ == append_exts(e.pool, staged(e.code, e.pool, e.alts, a, b, false)).1,
        g.program.shape == (FastShape::DottedExtensions { exts_off: 0, exts_len: (b - a) as u32 }),
        g.program.base_matcher_fn == MatcherFn::DottedExtensions,
    ensures
        base_spec(g.program.base_matcher_fn, g.program, g.opts, s) == anchored_spec(g.program, g.opts, s),
{
    let p = g.program;
    let code = e.code;
    let st = staged(code, e.pool, e.alts, a, b, false);
    lemma_append_exts_entries(e.pool, st);
    lemma_total_len_nonneg(st);
    assert(crate::compile::instr_ok(p, code[3]));
    assert forall|i: int| a <= i < b implies (#[trigger] alt_literal(p.code@, p.alt_table@, i)->0).0 + (
    alt_literal(p.code@, p.alt_table@, i)->0).1 <= p.pool@.len() by {
        assert(dotted_alt(e.code, e.pool, e.alts, i));
        lemma_dotted_alt_facts(p, e, i);
    }
    assert forall|i: int| a <= i < b implies 3 < #[trigger] p.alt_table@[i] by {
        assert(dotted_alt(e.code, e.pool, e.alts, i));
        lemma_dotted_alt_facts(p, e, i);
    }
    assert forall|i: int| a <= i < b implies #[trigger] plain_alt(p.code@, p.pool@, p.alt_table@, i) by {
        assert(dotted_alt(e.code, e.pool, e.alts, i));
        lemma_dotted_alt_facts(p, e, i);
    }
    assert(group_at(p, 3, a, b));
    assert(star_group_code(p, a, b));
    lemma_run_star_group(p, o, s, a, b);
    let ss = seg_start(s, o.mode, s.len() as int);
    assert forall|i: int| 0 <= i < st.len() implies #[trigger] st[i] == alt_lit(p, a + i) && st[i].len() > 0
        && !has_slash_byte(st[i]) by {
        assert(dotted_alt(e.code, e.pool, e.alts, a + i));
        lemma_dotted_alt_facts(p, e, a + i);
    }
    let vm = group_ok(p, o, s, a, b, ss);
    if vm {
        let j = choose|j: int| a <= j < b && #[trigger] last_seg_ok(o, s, ss, alt_lit(p, j));
        assert(st[j - a] == alt_lit(p, j));
    }
    if exists|i: int| 0 <= i < st.len() && #[trigger] last_seg_ok(o, s, ss, st[i]) {
        let i = choose|i: int| 0 <= i < st.len() && #[trigger] last_seg_ok(o, s, ss, st[i]);
        assert(st[i] == alt_lit(p, a + i));
        assert(last_seg_ok(o, s, ss, alt_lit(p, a + i)));
    }
    lemma_dotted_finish(pat, o, g, s, st, vm);
}

/// Every literal element of `ns` has at least one byte.
pub open spec fn lits_nonempty(ns: Seq<SNode>) -> bool {
    forall|i: int| 0 <= i < ns.len() && (#[trigger] ns[i]) is Literal ==> ns[i]->Literal_0.len() > 0
}

proof fn lemma_lits_nonempty_push(ns: Seq<SNode>, x: SNode)
    requires
        lits_nonempty(ns),
        x is Literal ==> x->Literal_0.len() > 0,
    ensures
        lits_nonempty(ns.push(x)),
{
    assert forall|i: int| 0 <= i < ns.push(x).len() && (#[trigger] ns.push(x)[i]) is Literal implies ns.push(
        x,
    )[i]->Literal_0.len() > 0 by {
        if i < ns.len() {
            assert(ns.push(x)[i] == ns[i]);
        }
    }
}

/// A brace group that parses is a `Brace` element.
proof fn lemma_brace_branches_brace(b: Seq<u8>, o: MatchOptions, start: int, pos: int, brs: Seq<Seq<SNode>>)
    ensures
        brace_branches(b, o, start, pos, brs) matches PRes::Done(Some(x), _) ==> x is Brace,
    decreases b.len() - pos,
{
    if 0 <= pos <= b.len() {
        if let PRes::Done(nodes, q) = seq_spec(b, o, pos, Stop::BraceCommaOrClose, Seq::empty(), Seq::empty()) {
            if byte_at(b, q) == Some(44u8) && pos <= q {
                lemma_brace_branches_brace(b, o, start, q + 1, brs.push(nodes));
            }
        }
    }
}

/// The elements a sequence parses to keep every literal non-empty.
proof fn lemma_seq_lits_nonempty(b: Seq<u8>, o: MatchOptions, pos: int, stop: Stop, lit: Seq<u8>, out: Seq<SNode>)
    requires
        lits_nonempty(out),
    ensures
        seq_spec(b, o, pos, stop, lit, out) matches PRes::Done(ns, _) ==> lits_nonempty(ns),
    decreases b.len() - pos,
{
    let f = flush(lit, out);
    if lit.len() > 0 {
        lemma_lits_nonempty_push(out, SNode::Literal(lit));
    }
    assert(lits_nonempty(f));
    if pos < 0 || pos >= b.len() || is_stop(stop, b[pos]) {
    } else {
        let c = b[pos];
        if c == 92u8 {
            if pos + 1 < b.len() {
                lemma_seq_lits_nonempty(b, o, pos + 2, stop, lit.push(esc(b[pos + 1])), out);
            } else {
                lemma_seq_lits_nonempty(b, o, pos + 1, stop, lit.push(92u8), out);
            }
        } else if c == 47u8 {
            lemma_lits_nonempty_push(f, SNode::Sep);
            lemma_seq_lits_nonempty(b, o, pos + 1, stop, Seq::empty(), f.push(SNode::Sep));
        } else if is_ext_intro(c) && !o.noextglob && byte_at(b, pos + 1) == Some(40u8) {
            if let PRes::Done(brs, q) = ext_branches(b, o, pos + 2, Seq::empty()) {
                if pos < q <= b.len() {
                    let x = SNode::Extglob(ext_kind_of(c), brs);
                    lemma_lits_nonempty_push(f, x);
                    lemma_seq_lits_nonempty(b, o, q, stop, Seq::empty(), f.push(x));
                }
            }
        } else if c == 63u8 {
            lemma_lits_nonempty_push(f, SNode::AnyChar);
            lemma_seq_lits_nonempty(b, o, pos + 1, stop, Seq::empty(), f.push(SNode::AnyChar));
        } else if c == 42u8 {
            let q = star_run(b, pos + 1);
            lemma_star_run(b, pos + 1);
            let x = if q > pos + 1 && !o.noglobstar {
                SNode::Globstar
            } else {
                SNode::Star
            };
            lemma_lits_nonempty_push(f, x);
            lemma_seq_lits_nonempty(b, o, q, stop, Seq::empty(), f.push(x));
        } else if c == 91u8 && !o.nobracket {
            match class_spec(b, o, pos) {
                ClassRes::Error(k, p) => {},
                ClassRes::Found(m, q) => if pos < q <= b.len() {
                    lemma_lits_nonempty_push(f, SNode::Class(m));
                    lemma_seq_lits_nonempty(b, o, q, stop, Seq::empty(), f.push(SNode::Class(m)));
                } else {
                    lemma_seq_lits_nonempty(b, o, pos + 1, stop, seq![91u8], f);
                },
                ClassRes::NotFound => {
                    lemma_seq_lits_nonempty(b, o, pos + 1, stop, seq![91u8], f);
                },
            }
        } else if c == 123u8 && !o.nobrace {
            if let PRes::Done(r, q) = brace_spec(b, o, pos, 0) {
                if r is Some && pos < q <= b.len() {
                    if !(0 >= o.max_brace_depth) && 0 <= pos < b.len() && brace_balanced_spec(
                        b.subrange(pos, b.len() as int),
                    ) {
                        lemma_brace_branches_brace(b, o, pos, pos + 1, Seq::empty());
                    }
                    lemma_lits_nonempty_push(f, r->0);
                    lemma_seq_lits_nonempty(b, o, q, stop, Seq::empty(), f.push(r->0));
                } else {
                    lemma_seq_lits_nonempty(b, o, pos + 1, stop, seq![123u8], f);
                }
            }
        } else {
            lemma_seq_lits_nonempty(b, o, pos + 1, stop, lit.push(c), out);
        }
    }
}

/// No instruction of `code` opens a group.
pub open spec fn no_group_code(code: Seq<Instr>) -> bool {
    forall|pc: int| 0 <= pc < code.len() ==> !((#[trigger] code[pc]) is BraceOpen || code[pc] is ExtglobOpen)
}

/// A group element leaves its opening instruction where its code starts.
proof fn lemma_group_opens(st: Emission, n: SNode, nc: bool)
    requires
        n is Brace || n is Extglob,
    ensures
        emit_node(st, n, true, nc).code.len() > st.code.len(),
        emit_node(st, n, true, nc).code[st.code.len() as int] is BraceOpen || emit_node(st, n, true, nc).code[
            st.code.len() as int] is ExtglobOpen,
{
    match n {
        SNode::Brace(brs) => {
            lemma_group(st, brs, None, nc);
        },
        SNode::Extglob(k, brs) => {
            lemma_group(st, brs, Some(k), nc);
        },
        _ => {},
    }
}

/// Elements whose code opens no group are emitted one instruction each, a literal element as
/// a literal of its length.
proof fn lemma_emit_simple(ns: Seq<SNode>, nc: bool)
    requires
        emission_fits(emit_seq(no_emission(), ns, true, nc)),
        no_group_code(emit_seq(no_emission(), ns, true, nc).code),
    ensures
        emit_seq(no_emission(), ns, true, nc).code.len() == ns.len(),
        forall|k: int|
            0 <= k < ns.len() && (#[trigger] emit_seq(no_emission(), ns, true, nc).code[k]) is Literal ==> ns[k] is Literal
                && emit_seq(no_emission(), ns, true, nc).code[k]->Literal_len == ns[k]->Literal_0.len(),
    decreases ns.len(),
{
    if ns.len() > 0 {
        let pre = ns.subrange(0, ns.len() - 1);
        let prev = emit_seq(no_emission(), pre, true, nc);
        let n = ns[ns.len() - 1];
        let e = emit_node(prev, n, true, nc);
        assert(emit_seq(no_emission(), ns, true, nc) == e);
        lemma_emit_node(prev, n, true, nc);
        assert(e.code.subrange(0, prev.code.len() as int) == prev.code);
        assert(emission_fits(prev));
        assert forall|pc: int| 0 <= pc < prev.code.len() implies !((#[trigger] prev.code[pc]) is BraceOpen
            || prev.code[pc] is ExtglobOpen) by {
            assert(prev.code[pc] == e.code.subrange(0, prev.code.len() as int)[pc]);
            assert(prev.code[pc] == e.code[pc]);
        }
        lemma_emit_simple(pre, nc);
        if n is Brace || n is Extglob {
            lemma_group_opens(prev, n, nc);
            assert(e.code[prev.code.len() as int] is BraceOpen || e.code[prev.code.len() as int] is ExtglobOpen);
        }
        assert forall|k: int| 0 <= k < ns.len() && (#[trigger] e.code[k]) is Literal implies ns[k] is Literal
            && e.code[k]->Literal_len == ns[k]->Literal_0.len() by {
            if k < pre.len() {
                assert(ns[k] == pre[k]);
                assert(e.code[k] == e.code.subrange(0, prev.code.len() as int)[k]);
                assert(e.code[k] == prev.code[k]);
            }
        }
    }
}

/// Case-folded equality splits at any index.
proof fn lemma_cased_concat(s: Seq<u8>, t: Seq<u8>, x: int, y: int, z: int, nc: bool)
    requires
        0 <= x <= y <= z <= s.len(),
        z <= t.len(),
    ensures
        cased_eq(s.subrange(x, z), t.subrange(x, z), nc) == (cased_eq(s.subrange(x, y), t.subrange(x, y), nc)
            && cased_eq(s.subrange(y, z), t.subrange(y, z), nc)),
{
    let (a, b) = (s.subrange(x, z), t.subrange(x, z));
    if cased_eq(a, b, nc) {
        assert forall|i: int| 0 <= i < y - x implies (if nc {
            lower_spec(#[trigger] s.subrange(x, y)[i]) == t.subrange(x, y)[i]
        } else {
            s.subrange(x, y)[i] == t.subrange(x, y)[i]
        }) by {
            assert(s.subrange(x, y)[i] == a[i] && t.subrange(x, y)[i] == b[i]);
        }
        assert forall|i: int| 0 <= i < z - y implies (if nc {
            lower_spec(#[trigger] s.subrange(y, z)[i]) == t.subrange(y, z)[i]
        } else {
            s.subrange(y, z)[i] == t.subrange(y, z)[i]
        }) by {
            assert(s.subrange(y, z)[i] == a[i + y - x] && t.subrange(y, z)[i] == b[i + y - x]);
        }
    }
    if cased_eq(s.subrange(x, y), t.subrange(x, y), nc) && cased_eq(s.subrange(y, z), t.subrange(y, z), nc) {
        assert forall|i: int| 0 <= i < z - x implies (if nc {
            lower_spec(#[trigger] a[i]) == b[i]
        } else {
            a[i] == b[i]
        }) by {
            if i < y - x {
                assert(s.subrange(x, y)[i] == a[i] && t.subrange(x, y)[i] == b[i]);
            } else {
                assert(s.subrange(y, z)[i - (y - x)] == a[i] && t.subrange(y, z)[i - (y - x)] == b[i]);
            }
        }
    }
}

/// The first `k` instructions are non-empty literals laid out one after another from the
/// start of the pool.
pub open spec fn prefix_code(p: Program, k: int) -> bool {
    &&& 0 <= k <= p.code@.len()
    &&& forall|j: int|
        0 <= j < k ==> (#[trigger] p.code@[j]) is Literal && p.code@[j]->Literal_off == litsum(p.code@, j)
            && p.code@[j]->Literal_len > 0
    &&& litsum(p.code@, k) <= p.pool@.len()
}

/// Whether index `litsum(k)` starts a segment after the first `k` literals have matched.
pub open spec fn at_after(p: Program, o: MatchOptions, k: int) -> bool {
    if k == 0 {
        true
    } else {
        sep_spec(o.mode, p.pool@[litsum(p.code@, k) - 1])
    }
}

/// The literals `j..k` match the input at the same places as in the pool.
proof fn lemma_lit_prefix(p: Program, o: MatchOptions, s: Seq<u8>, end: int, j: int, k: int)
    requires
        prefix_code(p, k),
        0 <= j <= k <= end <= p.code@.len(),
        litsum(p.code@, j) <= s.len(),
    ensures
        run(p, o, s, j, litsum(p.code@, j), end, at_after(p, o, j)) == if litsum(p.code@, k) <= s.len() && cased_eq(
            s.subrange(litsum(p.code@, j), litsum(p.code@, k)),
            p.pool@.subrange(litsum(p.code@, j), litsum(p.code@, k)),
            o.nocase,
        ) {
            run(p, o, s, k, litsum(p.code@, k), end, at_after(p, o, k))
        } else {
            None
        },
    decreases k - j,
{
    let code = p.code@;
    lemma_litsum_nonneg(code, k);
    if j < k {
        let lj = litsum(code, j);
        let lj1 = litsum(code, j + 1);
        let len = code[j]->Literal_len;
        assert(lj1 == lj + len);
        let need = p.pool_range(code[j]->Literal_off, len);
        assert(need == p.pool@.subrange(lj, lj1));
        assert(need[len - 1] == p.pool@[lj1 - 1]);
        assert(at_after(p, o, j + 1) == sep_spec(o.mode, need[len - 1]));
        if lj1 <= s.len() {
            lemma_lit_prefix(p, o, s, end, j + 1, k);
            if litsum(code, k) <= s.len() {
                lemma_cased_concat(s, p.pool@, lj, lj1, litsum(code, k), o.nocase);
            }
        }
    } else {
        assert(s.subrange(litsum(code, j), litsum(code, k)) =~= p.pool@.subrange(litsum(code, j), litsum(code, k)));
    }
}

/// Lower-casing keeps a byte a separator or not.
proof fn lemma_sep_lower(mode: Mode, x: u8)
    ensures
        sep_spec(mode, lower_spec(x)) == sep_spec(mode, x),
{
}

/// After the literals, the separator before index `litsum(k)` is read the same in the pool
/// and in the input.
proof fn lemma_at_after(p: Program, o: MatchOptions, s: Seq<u8>, k: int)
    requires
        prefix_code(p, k),
        litsum(p.code@, k) <= s.len(),
        cased_eq(s.subrange(0, litsum(p.code@, k)), p.pool@.subrange(0, litsum(p.code@, k)), o.nocase),
    ensures
        at_after(p, o, k) == (litsum(p.code@, k) == 0 || sep_spec(o.mode, s[litsum(p.code@, k) - 1])),
{
    let pl = litsum(p.code@, k);
    lemma_litsum_nonneg(p.code@, k);
    if k > 0 {
        assert(litsum(p.code@, 1) == litsum(p.code@, 0) + p.code@[0]->Literal_len);
        assert(pl > 0);
        assert(s.subrange(0, pl)[pl - 1] == s[pl - 1]);
        assert(p.pool@.subrange(0, pl)[pl - 1] == p.pool@[pl - 1]);
        lemma_sep_lower(o.mode, s[pl - 1]);
    }
}

/// The whole `literals*` program.
proof fn lemma_run_prefix_star(p: Program, o: MatchOptions, s: Seq<u8>, k: int)
    requires
        prefix_code(p, k),
        p.code@.len() == k + 1,
        p.code@[k] is Star,
        p.shape == (FastShape::PrefixStar { prefix_len: litsum(p.code@, k) as u32 }),
        p.pool@.len() <= u32::MAX,
        !o.contains,
    ensures
        run(p, o, s, 0, 0, k + 1, true) == if prefix_star_spec(p, o, s) {
            Some(s.len() as int)
        } else {
            None
        },
{
    let n = s.len() as int;
    let pl = litsum(p.code@, k);
    lemma_litsum_nonneg(p.code@, k);
    lemma_lit_prefix(p, o, s, k + 1, 0, k);
    assert(s.subrange(0, 0) =~= p.pool@.subrange(0, 0));
    if pl <= n && cased_eq(s.subrange(0, pl), p.pool@.subrange(0, pl), o.nocase) {
        lemma_at_after(p, o, s, k);
        lemma_seg_end(s, o.mode, pl);
        let at = at_after(p, o, k);
        assert(run(p, o, s, k, pl, k + 1, at) == star_case(p, o, s, k, pl, k + 1, at));
        if at && pl < n && s[pl] == 46u8 && !o.dot {
            assert(run(p, o, s, k + 1, pl, k + 1, at) is None);
        } else {
            assert(star_case(p, o, s, k, pl, k + 1, at) == crate::vm::finish(p, o, s, seg_end(s, o.mode, pl), k + 1));
            if seg_end(s, o.mode, pl) < n {
                assert(s.subrange(pl, n)[seg_end(s, o.mode, pl) - pl] == s[seg_end(s, o.mode, pl)]);
            } else {
                assert forall|j: int| 0 <= j < n - pl implies !sep_spec(o.mode, #[trigger] s.subrange(pl, n)[j]) by {
                    assert(s.subrange(pl, n)[j] == s[pl + j]);
                }
            }
        }
        assert(occurs_at(s, p.pool@.subrange(0, pl), 0, o.nocase));
    }
}

/// The whole `literals*literal` program.
proof fn lemma_run_prefix_star_suffix(p: Program, o: MatchOptions, s: Seq<u8>, k: int, soff: u32, slen: u32)
    requires
        prefix_code(p, k),
        star_tail_code(p, k, soff, slen),
        p.shape == (FastShape::PrefixStarSuffix {
            prefix_len: litsum(p.code@, k) as u32,
            suffix_off: soff,
            suffix_len: slen,
        }),
        p.pool@.len() <= u32::MAX,
        !o.contains,
    ensures
        run(p, o, s, 0, 0, k + 2, true) == if prefix_star_suffix_spec(p, o, s) {
            Some(s.len() as int)
        } else {
            None
        },
{
    let n = s.len() as int;
    let pl = litsum(p.code@, k);
    let need = p.pool_range(soff, slen);
    assert(need.len() == slen);
    lemma_litsum_nonneg(p.code@, k);
    lemma_lit_prefix(p, o, s, k + 2, 0, k);
    assert(s.subrange(0, 0) =~= p.pool@.subrange(0, 0));
    if pl <= n && cased_eq(s.subrange(0, pl), p.pool@.subrange(0, pl), o.nocase) {
        lemma_at_after(p, o, s, k);
        let at = at_after(p, o, k);
        lemma_tail_star(p, o, s, k, soff, slen, pl, at);
        lemma_seg_end(s, o.mode, pl);
        assert(occurs_at(s, p.pool@.subrange(0, pl), 0, o.nocase));
        if n - pl >= slen && occurs_at(s, need, n - slen, o.nocase) {
            lemma_cased_no_sep(s.subrange(n - slen, n), need, o.nocase, o.mode);
            if seg_end(s, o.mode, pl) == n {
                assert forall|j: int| 0 <= j < n - slen - pl implies !sep_spec(o.mode, #[trigger] s.subrange(pl, n - slen)[j]) by {
                    assert(s.subrange(pl, n - slen)[j] == s[pl + j]);
                }
            }
            if !has_sep(s.subrange(pl, n - slen), o.mode) {
                assert forall|j: int| pl <= j < n implies !sep_spec(o.mode, #[trigger] s[j]) by {
                    if j < n - slen {
                        assert(s.subrange(pl, n - slen)[j - pl] == s[j]);
                    } else {
                        assert(s.subrange(n - slen, n)[j - (n - slen)] == s[j]);
                    }
                }
                lemma_seg_end_unique(s, o.mode, pl, n);
            }
        }
    }
}

/// In a compiled pattern whose code opens no group, the first `k` instructions, when they are
/// literals, are non-empty and laid out from the start of the pool.
proof fn lemma_compiled_prefix(pat: Seq<u8>, o: MatchOptions, g: CompiledGlob, k: int)
    requires
        compiled_ok(pat, o, Ok(g)),
        no_group_code(g.program.code@),
        g.program.pool@ == emit_seq(no_emission(), pattern_spec(pat, o)->Done_0.1, true, o.nocase).pool,
        0 <= k <= g.program.code@.len(),
        forall|j: int| 0 <= j < k ==> (#[trigger] g.program.code@[j]) is Literal,
    ensures
        prefix_code(g.program, k),
{
    let v = pattern_spec(pat, o)->Done_0;
    let nodes = v.1;
    let e = emit_seq(no_emission(), nodes, true, o.nocase);
    let p = g.program;
    assert(p.code@ == e.code);
    assert(lits_nonempty(Seq::<SNode>::empty()));
    lemma_seq_lits_nonempty(pat, o, crate::parse::neg_end(pat, o), Stop::Eof, Seq::empty(), Seq::empty());
    assert(lits_nonempty(nodes));
    lemma_emit_simple(nodes, o.nocase);
    lemma_seq(no_emission(), nodes, true, o.nocase);
    assert(laid_out(no_emission()));
    assert(laid_out(e));
    lemma_litsum_nonneg(e.code, e.code.len() as int);
    assert forall|j: int| 0 <= j < k implies (#[trigger] p.code@[j]) is Literal && p.code@[j]->Literal_off == litsum(
        p.code@,
        j,
    ) && p.code@[j]->Literal_len > 0 by {
        assert(e.code[j] is Literal);
        assert(nodes[j] is Literal);
    }
}

/// Whatever a compiled pattern's base matcher accepts holds its prefilter literal, whatever
/// the literal's length.
pub(crate) proof fn lemma_base_holds_prefilter(pat: Seq<u8>, o: MatchOptions, g: CompiledGlob, x: Seq<u8>)
    requires
        compiled_ok(pat, o, Ok(g)),
        g.program.prefilter is Some,
        base_spec(g.program.base_matcher_fn, g.program, g.opts, x),
    ensures
        found_in(x, g.program.pool_range((g.program.prefilter->0).0, (g.program.prefilter->0).1), o.nocase),
{
    let v = pattern_spec(pat, o)->Done_0;
    let e = emit_seq(no_emission(), v.1, true, o.nocase);
    let p = g.program;
    let n = p.code@.len() as int;
    let pf = p.prefilter->0;
    lemma_seq(no_emission(), v.1, true, o.nocase);
    assert(laid_out(no_emission()));
    lemma_top_walk(no_emission(), v.1, o.nocase);
    let w = choose|w: int| visits(e.code, 0, e.code.len() as int, w) && e.code[w] == (Instr::Literal {
        off: pf.0,
        len: pf.1,
    });
    if o.contains {
        assert(p.base_matcher_fn == MatcherFn::AnywhereDispatch);
        let i = choose|i: int| 0 <= i <= x.len() && #[trigger] hit_from(p, o, x, i);
        lemma_run_sees(p, o, x, 0, i, n, i == 0, w);
    } else {
        law_fast_paths_agree(pat, o, g, x);
        lemma_run_sees(p, o, x, 0, 0, n, true, w);
    }
    assert(lit_found(p, x, w, o.nocase));
}

} // verus!
