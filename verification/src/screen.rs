use vstd::prelude::*;

use crate::ast::SNode;
use crate::compile::{
    compiled_ok, detect, emission_fits, emit_seq, lit_run_len, literal_at, matcher_for,
    no_emission, packed_of, prefix_star_len, prefix_star_suffix, program_for, single_star,
    CompiledGlob, Emission, FastShape, Instr, MatcherFn, Program,
};
use crate::layout::{
    best_on_walk, is_closer, laid_out, lemma_litsum_nonneg, lemma_lit_run_is_litsum, lemma_seq,
    lemma_step_grows, lemma_top_walk, lemma_visits_range, lit_len, litsum, visits, walk_step,
};
use crate::matcher::{base_spec, basename_spec, hit_from, matches_spec, tail_of};
use crate::options::{sep_spec, MatchOptions, Mode};
use crate::parse::{pattern_spec, PRes};
use crate::folding::{lemma_alt_run_low, lemma_ext_low};
use crate::search::{lemma_seg_end, lemma_seg_start, occurs_at, seg_end};
use crate::vm::{alt_run, brace_alts, ext_spec, globstar_case, gloop, gskip, lit_of, run, span, star_back, star_case, star_skip};
use crate::set::{
    common_literals_of, compiled_from_pattern, found_in, glob_matches, screen_literal, screen_passes,
};
use crate::util::{lemma_pack_bound, lemma_pack_injective, lemma_pow256_mono, pack_spec, pow256};

verus! {

// The quick rejection test of a set never rejects a string that one of its patterns
// matches.

proof fn lemma_found_in_suffix(s: Seq<u8>, st: int, lit: Seq<u8>, nc: bool)
    requires
        0 <= st <= s.len(),
        found_in(s.subrange(st, s.len() as int), lit, nc),
    ensures
        found_in(s, lit, nc),
{
    let t = s.subrange(st, s.len() as int);
    let p = choose|p: int| occurs_at(t, lit, p, nc);
    assert(s.subrange(p + st, p + st + lit.len()) =~= t.subrange(p, p + lit.len()));
    assert(occurs_at(s, lit, p + st, nc));
}

/// Bytes `s[a..a + len]` equal `t[a..a + len]` when `t[..pl]` is a prefix of `s` and
/// `a + len <= pl`.
proof fn lemma_occurs_in_prefix(s: Seq<u8>, t: Seq<u8>, pl: int, a: int, len: int, nc: bool)
    requires
        0 <= a,
        0 <= len,
        a + len <= pl <= t.len(),
        occurs_at(s, t.subrange(0, pl), 0, nc),
    ensures
        occurs_at(s, t.subrange(a, a + len), a, nc),
{
    let h = s.subrange(a, a + len);
    let n = t.subrange(a, a + len);
    assert forall|i: int| 0 <= i < len implies (if nc {
        crate::util::lower_spec(#[trigger] h[i]) == n[i]
    } else {
        h[i] == n[i]
    }) by {
        assert(s.subrange(0, pl)[a + i] == h[i]);
        assert(t.subrange(0, pl)[a + i] == n[i]);
    }
}

/// The top-level walk from `pc` over plain instructions up to a group at `k` that closes
/// the program visits only `pc..=k`.
proof fn lemma_walk_head(code: Seq<Instr>, pc: int, k: int, x: int)
    requires
        0 <= pc <= k < code.len(),
        forall|i: int| pc <= i < k ==> !((#[trigger] code[i]) is BraceOpen || code[i] is ExtglobOpen),
        walk_step(code, k) == code.len(),
        visits(code, pc, code.len() as int, x),
    ensures
        pc <= x <= k,
    decreases k - pc,
{
    let n = code.len() as int;
    if pc < k {
        assert(!(code[pc] is BraceOpen || code[pc] is ExtglobOpen));
        assert(walk_step(code, pc) == pc + 1);
        if x != pc {
            lemma_walk_head(code, pc + 1, k, x);
        }
    } else {
        assert(!visits(code, n, n, x));
    }
}

/// Some run of the instructions `pc .. end` from some index of the input succeeds.
spec fn cont(p: Program, o: MatchOptions, s: Seq<u8>, pc: int, end: int) -> bool {
    exists|q: int, a: bool| 0 <= q <= s.len() && #[trigger] run(p, o, s, pc, q, end, a) is Some
}

proof fn lemma_star_skip_cont(
    p: Program,
    o: MatchOptions,
    s: Seq<u8>,
    pc: int,
    pi: int,
    end: int,
    need: Seq<u8>,
    k: int,
)
    requires
        0 <= pi <= s.len(),
        star_skip(p, o, s, pc, pi, end, need, k) is Some,
    ensures
        cont(p, o, s, pc + 1, end),
    decreases seg_end(s, o.mode, pi) - pi + 1 - k,
{
    let se = seg_end(s, o.mode, pi);
    lemma_seg_end(s, o.mode, pi);
    let hay = s.subrange(pi, se);
    if occurs_at(hay, need, k, o.nocase) && run(p, o, s, pc + 1, pi + k, end, false) is Some {
        assert(0 <= pi + k <= s.len());
    } else {
        lemma_star_skip_cont(p, o, s, pc, pi, end, need, k + 1);
    }
}

proof fn lemma_star_back_cont(p: Program, o: MatchOptions, s: Seq<u8>, pc: int, pi: int, end: int, probe: int)
    requires
        0 <= pi,
        probe <= s.len(),
        star_back(p, o, s, pc, pi, end, probe) is Some,
    ensures
        cont(p, o, s, pc + 1, end),
    decreases probe - pi,
{
    if run(p, o, s, pc + 1, probe, end, false) is Some {
    } else {
        lemma_star_back_cont(p, o, s, pc, pi, end, probe - 1);
    }
}

proof fn lemma_star_cont(p: Program, o: MatchOptions, s: Seq<u8>, pc: int, pi: int, end: int, at: bool)
    requires
        0 <= pi <= s.len(),
        star_case(p, o, s, pc, pi, end, at) is Some,
    ensures
        pc + 1 >= end || cont(p, o, s, pc + 1, end),
{
    lemma_seg_end(s, o.mode, pi);
    if at && pi < s.len() && s[pi] == 46u8 && !o.dot {
        assert(run(p, o, s, pc + 1, pi, end, at) is Some);
    } else if pc + 1 >= end {
    } else {
        match lit_of(p, pc + 1) {
            Some(need) => {
                lemma_star_skip_cont(p, o, s, pc, pi, end, need, 0);
            },
            None => {
                lemma_star_back_cont(p, o, s, pc, pi, end, seg_end(s, o.mode, pi));
            },
        }
    }
}

proof fn lemma_gskip_cont(
    p: Program,
    o: MatchOptions,
    s: Seq<u8>,
    pc: int,
    pi: int,
    end: int,
    need: Seq<u8>,
    lead: bool,
    at: bool,
    k: int,
)
    requires
        0 <= pi <= s.len(),
        gskip(p, o, s, pc, pi, end, need, lead, at, k) is Some,
    ensures
        cont(p, o, s, if lead { pc + 2 } else { pc + 1 }, end),
    decreases s.len() - pi + 1 - k,
{
    let hay = s.subrange(pi, s.len() as int);
    let abs = pi + k;
    let next = if lead {
        pc + 2
    } else {
        pc + 1
    };
    if occurs_at(hay, need, k, o.nocase) && (!lead || abs == 0 || sep_spec(o.mode, s[abs - 1]))
        && run(p, o, s, next, abs, end, at || abs == 0) is Some {
        assert(0 <= abs <= s.len());
    } else {
        lemma_gskip_cont(p, o, s, pc, pi, end, need, lead, at, k + 1);
    }
}

proof fn lemma_gloop_cont(p: Program, o: MatchOptions, s: Seq<u8>, pc: int, pi: int, end: int, at: bool, probe: int)
    requires
        gloop(p, o, s, pc, pi, end, at, probe) is Some,
    ensures
        cont(p, o, s, pc + 1, end) || (pc + 1 < p.code@.len() && p.code@[pc + 1] is Sep && cont(p, o, s, pc + 2, end)),
    decreases s.len() + 1 - probe,
{
    let a2 = at || probe == 0;
    if run(p, o, s, pc + 1, probe, end, a2) is Some {
    } else if pc + 1 < p.code@.len() && p.code@[pc + 1] is Sep && pc + 2 <= end && run(p, o, s, pc + 2, probe, end, a2) is Some {
    } else {
        lemma_gloop_cont(p, o, s, pc, pi, end, at, probe + 1);
    }
}

proof fn lemma_globstar_cont(p: Program, o: MatchOptions, s: Seq<u8>, pc: int, pi: int, end: int, at: bool)
    requires
        0 <= pi <= s.len(),
        end <= p.code@.len(),
        globstar_case(p, o, s, pc, pi, end, at) is Some,
    ensures
        pc + 1 >= end || cont(p, o, s, pc + 1, end) || (p.code@[pc + 1] is Sep && cont(p, o, s, pc + 2, end)),
{
    if pc + 1 >= end {
    } else {
        match lit_of(p, pc + 1) {
            Some(need) => {
                lemma_gskip_cont(p, o, s, pc, pi, end, need, false, at, 0);
            },
            None => {
                if p.code@[pc + 1] is Sep && lit_of(p, pc + 2) is Some {
                    lemma_gskip_cont(p, o, s, pc, pi, end, lit_of(p, pc + 2)->0, true, at, 0);
                } else {
                    lemma_gloop_cont(p, o, s, pc, pi, end, at, pi);
                }
            },
        }
    }
}

proof fn lemma_brace_cont(
    p: Program,
    o: MatchOptions,
    s: Seq<u8>,
    pc: int,
    pi: int,
    end: int,
    at: bool,
    b: int,
    e: int,
    i: int,
)
    requires
        0 <= pi <= s.len(),
        brace_alts(p, o, s, pc, pi, end, at, b, e, i) is Some,
    ensures
        cont(p, o, s, e, end),
    decreases b - i,
{
    lemma_alt_run_low(p, o, s, pc, end, e, i, pi, at);
    match alt_run(p, o, s, pc, end, e, i, pi, at) {
        Some(ep) => {
            if run(p, o, s, e, ep, end, false) is Some {
            } else {
                lemma_brace_cont(p, o, s, pc, pi, end, at, b, e, i + 1);
            }
        },
        None => {
            lemma_brace_cont(p, o, s, pc, pi, end, at, b, e, i + 1);
        },
    }
}

/// The literal at `x`, where there is one, occurs in the input.
pub(crate) open spec fn lit_found(p: Program, s: Seq<u8>, x: int, nocase: bool) -> bool {
    match p.code@[x] {
        Instr::Literal { off, len } => exists|j: int| occurs_at(s, p.pool_range(off, len), j, nocase),
        _ => true,
    }
}

/// A successful run of `pc .. end` has matched, somewhere in the input, every literal that
/// the top-level walk from `pc` passes, provided the walk passes no group closer.
pub(crate) proof fn lemma_run_sees(
    p: Program,
    o: MatchOptions,
    s: Seq<u8>,
    pc: int,
    pi: int,
    end: int,
    at: bool,
    x: int,
)
    requires
        p.wf(),
        0 <= pc,
        end <= p.code@.len(),
        0 <= pi <= s.len(),
        run(p, o, s, pc, pi, end, at) is Some,
        visits(p.code@, pc, end, x),
        forall|y: int| #![trigger visits(p.code@, pc, end, y)] visits(p.code@, pc, end, y) ==> !is_closer(p.code@[y]),
    ensures
        lit_found(p, s, x, o.nocase),
    decreases span(pc, end),
{
    let code = p.code@;
    lemma_visits_range(code, pc, end, x);
    lemma_step_grows(code, pc);
    assert(visits(code, pc, end, pc));
    assert(crate::compile::instr_ok(p, code[pc]));
    let next = walk_step(code, pc);
    assert forall|y: int| #![trigger visits(code, next, end, y)] visits(code, next, end, y) implies !is_closer(code[y]) by {
        assert(visits(code, pc, end, y));
    }
    if x == pc {
        if let Instr::Literal { off, len } = code[pc] {
            let need = p.pool_range(off, len);
            assert(occurs_at(s, need, pi, o.nocase));
        }
    } else {
        assert(visits(code, next, end, x));
        match code[pc] {
            Instr::Literal { off, len } => {
                let need = p.pool_range(off, len);
                lemma_run_sees(p, o, s, pc + 1, pi + len, end, len > 0 && sep_spec(o.mode, need[len - 1]), x);
            },
            Instr::Sep => {
                lemma_run_sees(p, o, s, pc + 1, pi + 1, end, true, x);
            },
            Instr::AnyChar => {
                lemma_run_sees(p, o, s, pc + 1, pi + 1, end, false, x);
            },
            Instr::Class(idx) => {
                lemma_run_sees(p, o, s, pc + 1, pi + 1, end, false, x);
            },
            Instr::Star => {
                lemma_star_cont(p, o, s, pc, pi, end, at);
                let (q, a) = choose|q: int, a: bool| 0 <= q <= s.len() && #[trigger] run(p, o, s, pc + 1, q, end, a) is Some;
                lemma_run_sees(p, o, s, pc + 1, q, end, a, x);
            },
            Instr::Globstar => {
                lemma_globstar_cont(p, o, s, pc, pi, end, at);
                if cont(p, o, s, pc + 1, end) {
                    let (q, a) = choose|q: int, a: bool| 0 <= q <= s.len() && #[trigger] run(p, o, s, pc + 1, q, end, a) is Some;
                    lemma_run_sees(p, o, s, pc + 1, q, end, a, x);
                } else {
                    assert(code[pc + 1] is Sep);
                    if x != pc + 1 {
                        lemma_step_grows(code, pc + 1);
                        assert(walk_step(code, pc + 1) == pc + 2);
                        assert(visits(code, pc + 1, end, x));
                        assert(visits(code, pc + 2, end, x));
                        assert forall|y: int| #![trigger visits(code, pc + 2, end, y)] visits(code, pc + 2, end, y) implies !is_closer(code[y]) by {
                            assert(visits(code, pc + 1, end, y));
                        }
                        let (q, a) = choose|q: int, a: bool| 0 <= q <= s.len() && #[trigger] run(p, o, s, pc + 2, q, end, a) is Some;
                        lemma_run_sees(p, o, s, pc + 2, q, end, a, x);
                    }
                }
            },
            Instr::BraceOpen { alts, end: e } => {
                lemma_brace_cont(p, o, s, pc, pi, end, at, alts.1 as int, e as int, alts.0 as int);
                let (q, a) = choose|q: int, a: bool| 0 <= q <= s.len() && #[trigger] run(p, o, s, e as int, q, end, a) is Some;
                lemma_run_sees(p, o, s, e as int, q, end, a, x);
            },
            Instr::ExtglobOpen { kind, alts, end: e } => {
                lemma_ext_low(p, o, s, pc, end, kind, alts.0 as int, alts.1 as int, e as int, pi, at);
                let q = ext_spec(p, o, s, pc, end, kind, alts.0 as int, alts.1 as int, e as int, pi, at)->0;
                lemma_run_sees(p, o, s, e as int, q, end, false, x);
            },
            _ => {},
        }
    }
}

/// What a compiled pattern's matcher accepts holds its screening literal (ignoring ASCII
/// case under `nocase`).
proof fn lemma_base_finds(p: Program, o: MatchOptions, e: Emission, s: Seq<u8>)
    requires
        laid_out(e),
        emission_fits(e),
        best_on_walk(e),
        p.code@ == e.code,
        p.pool@ == detect(e.code, e.pool, e.alts).pool,
        p.shape == detect(e.code, e.pool, e.alts).shape,
        p.prefilter == e.best,
        p.prefilter matches Some(pf) && pf.1 >= 2,
        base_spec(matcher_for(p.shape, o), p, o, s),
        p.wf(),
    ensures
        found_in(s, p.pool_range((p.prefilter->0).0, (p.prefilter->0).1), o.nocase),
{
    let code = e.code;
    let n = code.len() as int;
    let d = detect(e.code, e.pool, e.alts);
    let pf = p.prefilter->0;
    let lit = p.pool_range(pf.0, pf.1);
    let x = choose|x: int| visits(code, 0, n, x) && code[x] == (Instr::Literal { off: pf.0, len: pf.1 });
    lemma_visits_range(code, 0, n, x);
    lemma_litsum_nonneg(code, n);
    lemma_litsum_nonneg(code, x + 1);
    assert(pf.0 == litsum(code, x));
    assert(litsum(code, x + 1) == litsum(code, x) + pf.1);
    if o.contains {
        assert(matcher_for(p.shape, o) == MatcherFn::AnywhereDispatch);
        let i = choose|i: int| 0 <= i <= s.len() && #[trigger] hit_from(p, o, s, i);
        lemma_run_sees(p, o, s, 0, i, n, i == 0, x);
        assert(lit_found(p, s, x, o.nocase));
    } else {
        match d.shape {
            FastShape::NoShape => {
                assert(exists|j: int| occurs_at(s, lit, j, o.nocase));
            },
            FastShape::Literal => {
                assert(n == 1 && x == 0);
                assert(d.pool == e.pool);
                assert(litsum(code, 1) == pf.1);
                assert(s.subrange(0, s.len() as int) =~= s);
                assert(lit =~= p.pool@);
                assert(occurs_at(s, lit, 0, o.nocase));
            },
            FastShape::PrefixStar { prefix_len } => {
                assert(d.pool == e.pool);
                let pl = prefix_star_len(code, e.pool)->0;
                lemma_lit_run_is_litsum(code, 0, n - 1);
                lemma_litsum_nonneg(code, n - 1);
                assert(x < n - 1);
                assert(pf.0 + pf.1 <= pl);
                assert(prefix_len as int == pl);
                lemma_occurs_in_prefix(s, p.pool@, pl, pf.0 as int, pf.1 as int, o.nocase);
            },
            FastShape::PrefixStarSuffix { prefix_len, suffix_off, suffix_len } => {
                assert(d.pool == e.pool);
                let (pl, r) = prefix_star_suffix(code, e.pool)->0;
                let si = single_star(code, 0, None)->0;
                crate::compile::lemma_single_star_range(code, 0, None);
                lemma_lit_run_is_litsum(code, 0, si);
                lemma_litsum_nonneg(code, si);
                assert(n == si + 2);
                if x < si {
                    assert(pf.0 + pf.1 <= pl);
                    lemma_occurs_in_prefix(s, p.pool@, pl, pf.0 as int, pf.1 as int, o.nocase);
                } else {
                    assert(x == si + 1);
                    assert(pf == r);
                    assert(occurs_at(s, lit, s.len() - suffix_len, o.nocase));
                }
            },
            FastShape::GlobstarLiteral { suffix_off, suffix_len } => {
                assert(n == 3 && x == 2);
                assert(occurs_at(s, lit, if s.len() == suffix_len { 0 } else { s.len() - suffix_len }, o.nocase));
            },
            FastShape::GlobstarStarSuffix { suffix_off, suffix_len } => {
                assert(n == 4 && x == 3);
                assert(occurs_at(s, lit, s.len() - suffix_len, o.nocase));
            },
            FastShape::EndsWithLiteral { tail_off, tail_len, tail_packed } => {
                assert(n == 4 && x == 3);
                let t = tail_of(s, tail_len as int);
                let pr = e.pool.subrange(tail_off as int, tail_off + tail_len);
                assert(pr =~= lit);
                if tail_len <= 8 && !o.nocase {
                    assert(tail_packed == packed_of(e.pool, tail_off, tail_len));
                    lemma_pack_bound(pr);
                    lemma_pow256_mono(pr.len(), 8);
                    assert(pow256(8) == 0x1_0000_0000_0000_0000) by {
                        reveal_with_fuel(pow256, 9);
                    }
                    assert(pr =~= lit);
                    lemma_pack_injective(t, lit);
                }
                assert(occurs_at(s, lit, s.len() - tail_len, o.nocase));
            },
            FastShape::GlobstarStarSuffixes { .. } => {
                lemma_walk_head(code, 0, 3, x);
            },
            FastShape::DottedExtensions { .. } => {
                if code[3] is Literal {
                    lemma_walk_head(code, 0, 4, x);
                    assert(x == 3);
                } else {
                    lemma_walk_head(code, 0, 3, x);
                }
            },
        }
    }
}

/// A pattern that matches a string: its screening literal occurs in the string (ignoring
/// ASCII case under `nocase`).
pub proof fn law_screen_literal_sound(pat: Seq<u8>, o: MatchOptions, g: CompiledGlob, s: Seq<u8>)
    requires
        compiled_ok(pat, o, Ok(g)),
        screen_literal(g) is Some,
        matches_spec(g.program, g.opts, s),
    ensures
        found_in(s, screen_literal(g)->0, o.nocase),
{
    let v = pattern_spec(pat, o)->Done_0;
    let nodes = v.1;
    let e = emit_seq(no_emission(), nodes, true, o.nocase);
    let p = g.program;
    lemma_seq(no_emission(), nodes, true, o.nocase);
    assert(laid_out(no_emission()));
    lemma_top_walk(no_emission(), nodes, o.nocase);
    let base = matcher_for(p.shape, o);
    if p.matcher_fn is BasenamePosixThenBase || p.matcher_fn is BasenameWindowsThenBase {
        let mode = if p.matcher_fn is BasenamePosixThenBase {
            Mode::Posix
        } else {
            Mode::Windows
        };
        let st = crate::search::seg_start(s, mode, s.len() as int);
        lemma_seg_start(s, mode, s.len() as int);
        lemma_base_finds(p, o, e, basename_spec(s, mode));
        lemma_found_in_suffix(s, st, screen_literal(g)->0, o.nocase);
    } else {
        lemma_base_finds(p, o, e, s);
    }
}

/// The literal prefilter of a compiled pattern never turns a match into a miss: when the
/// pattern's matcher, before any negation, accepts a string, the prefilter literal occurs in
/// it (ignoring ASCII case under `nocase`), whatever the literal's length.
pub proof fn law_prefilter_sound(pat: Seq<u8>, o: MatchOptions, g: CompiledGlob, s: Seq<u8>)
    requires
        compiled_ok(pat, o, Ok(g)),
        g.program.prefilter is Some,
        crate::matcher::unnegated_spec(g.program, g.opts, s),
    ensures
        found_in(s, g.program.pool_range((g.program.prefilter->0).0, (g.program.prefilter->0).1), o.nocase),
{
    let p = g.program;
    let lit = p.pool_range((p.prefilter->0).0, (p.prefilter->0).1);
    if o.match_base && !p.has_slash {
        let st = crate::search::seg_start(s, o.mode, s.len() as int);
        lemma_seg_start(s, o.mode, s.len() as int);
        crate::agree::lemma_base_holds_prefilter(pat, o, g, basename_spec(s, o.mode));
        lemma_found_in_suffix(s, st, lit, o.nocase);
    } else {
        crate::agree::lemma_base_holds_prefilter(pat, o, g, s);
    }
}

/// In a set of compiled patterns, a string that one of its un-negated patterns matches
/// passes the quick rejection test: the test never turns a match into a miss.
pub proof fn law_set_screen_sound(gs: Seq<CompiledGlob>, s: Seq<u8>)
    requires
        forall|i: int| 0 <= i < gs.len() ==> #[trigger] compiled_from_pattern(gs[i]),
    ensures
        (exists|i: int| 0 <= i < gs.len() && !gs[i].program.negated && glob_matches(gs, i, s))
            ==> screen_passes(gs, s),
{
    if exists|i: int| 0 <= i < gs.len() && !gs[i].program.negated && glob_matches(gs, i, s) {
        let i = choose|i: int| 0 <= i < gs.len() && !gs[i].program.negated && glob_matches(gs, i, s);
        let lits = common_literals_of(gs);
        if lits.len() > 0 && !(exists|k: int| 0 <= k < gs.len() && (#[trigger] gs[k]).program.negated) {
            assert(screen_literal(gs[i]) is Some);
            assert(compiled_from_pattern(gs[i]));
            let pat = choose|pat: Seq<u8>| compiled_ok(pat, gs[i].opts, Ok(gs[i]));
            law_screen_literal_sound(pat, gs[i].opts, gs[i], s);
            assert(lits[i] == screen_literal(gs[i])->0);
            assert(found_in(s, lits[i], gs[i].opts.nocase));
        }
    }
}

} // verus!
