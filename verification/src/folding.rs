use vstd::prelude::*;

use crate::ast::ExtKind;
use crate::compile::{compiled_ok, lowered, CompiledGlob, Instr, MatcherFn, Program};
use crate::matcher::{
    anchored_spec, anywhere_spec, base_spec, basename_spec, hit_from,
    matches_spec, prefilter_spec, suffix_hit, tail_eq_spec, tail_of,
};
use crate::options::{sep_spec, MatchOptions, Mode};
use crate::search::{
    cased_eq, has_sep, lemma_seg_end, lemma_seg_start, occurs_at, seg_end, seg_start,
};
use crate::util::lower_spec;
use crate::vm::{
    adv, alt_run, brace_alts, ext_spec, first_alt, gloop, globstar_case, gskip, lit_of, neg_hit,
    run, span, star_back, star_case, star_ext, star_skip,
};

verus! {

// Under `nocase` the matcher reads every input byte through `lower_spec`, or only asks
// whether it is a separator or a dot, which lowering never changes: so the answer for an
// input is the answer for its lower-cased form. The same induction shows that a run started
// inside the input ends inside it, at or after where it started.

proof fn lemma_low_sub(s: Seq<u8>, a: int, b: int)
    requires
        0 <= a <= b <= s.len(),
    ensures
        lowered(s).subrange(a, b) == lowered(s.subrange(a, b)),
{
    assert(lowered(s).subrange(a, b) =~= lowered(s.subrange(a, b)));
}

proof fn lemma_cased_low(a: Seq<u8>, b: Seq<u8>)
    ensures
        cased_eq(lowered(a), b, true) == cased_eq(a, b, true),
{
    if cased_eq(a, b, true) {
        assert forall|i: int| 0 <= i < lowered(a).len() implies lower_spec(#[trigger] lowered(a)[i]) == b[i] by {
            assert(lower_spec(a[i]) == b[i]);
        }
    }
    if cased_eq(lowered(a), b, true) {
        assert forall|i: int| 0 <= i < a.len() implies lower_spec(#[trigger] a[i]) == b[i] by {
            assert(lower_spec(lowered(a)[i]) == b[i]);
        }
    }
}

proof fn lemma_occurs_low(h: Seq<u8>, n: Seq<u8>, k: int)
    ensures
        occurs_at(lowered(h), n, k, true) == occurs_at(h, n, k, true),
{
    if 0 <= k && k + n.len() <= h.len() {
        lemma_low_sub(h, k, k + n.len());
        lemma_cased_low(h.subrange(k, k + n.len()), n);
    }
}

proof fn lemma_seg_end_low(s: Seq<u8>, mode: Mode, i: int)
    ensures
        seg_end(lowered(s), mode, i) == seg_end(s, mode, i),
    decreases s.len() - i,
{
    if 0 <= i < s.len() {
        lemma_seg_end_low(s, mode, i + 1);
    }
}

proof fn lemma_seg_start_low(s: Seq<u8>, mode: Mode, n: int)
    requires
        n <= s.len(),
    ensures
        seg_start(lowered(s), mode, n) == seg_start(s, mode, n),
    decreases n,
{
    if n > 0 {
        lemma_seg_start_low(s, mode, n - 1);
    }
}

proof fn lemma_has_sep_low(x: Seq<u8>, mode: Mode)
    ensures
        has_sep(lowered(x), mode) == has_sep(x, mode),
{
    if has_sep(x, mode) {
        let i = choose|i: int| 0 <= i < x.len() && sep_spec(mode, #[trigger] x[i]);
        assert(sep_spec(mode, lowered(x)[i]));
    }
    if has_sep(lowered(x), mode) {
        let i = choose|i: int| 0 <= i < lowered(x).len() && sep_spec(mode, #[trigger] lowered(x)[i]);
        assert(sep_spec(mode, x[i]));
    }
}

proof fn lemma_run_low(
    p: Program,
    o: MatchOptions,
    s: Seq<u8>,
    pc: int,
    pi: int,
    end: int,
    at: bool,
)
    requires
        0 <= pi <= s.len(),
    ensures
        o.nocase ==> run(p, o, s, pc, pi, end, at) == run(p, o, lowered(s), pc, pi, end, at),
        run(p, o, s, pc, pi, end, at) matches Some(r) ==> pi <= r <= s.len(),
    decreases span(pc, end), 2int, 0int, 0int,
{
    let t = lowered(s);
    if pc >= end || pc < 0 || pc >= p.code@.len() {
    } else {
        match p.code@[pc] {
            Instr::Literal { off, len } => {
                let need = p.pool_range(off, len);
                if pi + len <= s.len() {
                    lemma_low_sub(s, pi, pi + len);
                    lemma_cased_low(s.subrange(pi, pi + len), need);
                    if cased_eq(s.subrange(pi, pi + len), need, o.nocase) {
                        lemma_run_low(
                            p,
                            o,
                            s,
                            pc + 1,
                            pi + len,
                            end,
                            len > 0 && sep_spec(o.mode, need[len - 1]),
                        );
                    }
                }
            },
            Instr::Sep => {
                if pi < s.len() {
                    assert(t[pi] == lower_spec(s[pi]));
                    lemma_run_low(p, o, s, pc + 1, pi + 1, end, true);
                }
            },
            Instr::AnyChar => {
                if pi < s.len() {
                    assert(t[pi] == lower_spec(s[pi]));
                    lemma_run_low(p, o, s, pc + 1, pi + 1, end, false);
                }
            },
            Instr::Class(idx) => {
                if pi < s.len() {
                    assert(t[pi] == lower_spec(s[pi]));
                    assert(lower_spec(t[pi]) == lower_spec(s[pi]));
                    lemma_run_low(p, o, s, pc + 1, pi + 1, end, false);
                }
            },
            Instr::Star => {
                lemma_star_case_low(p, o, s, pc, pi, end, at);
            },
            Instr::Globstar => {
                lemma_globstar_case_low(p, o, s, pc, pi, end, at);
            },
            Instr::BraceOpen { alts, end: e } => {
                lemma_brace_alts_low(p, o, s, pc, pi, end, at, alts.1 as int, e as int, alts.0 as int);
            },
            Instr::ExtglobOpen { kind, alts, end: e } => {
                if pc < e && e <= end {
                    lemma_ext_low(p, o, s, pc, end, kind, alts.0 as int, alts.1 as int, e as int, pi, at);
                    match ext_spec(p, o, s, pc, end, kind, alts.0 as int, alts.1 as int, e as int, pi, at) {
                        None => {},
                        Some(q) => {
                            lemma_run_low(p, o, s, e as int, q, end, false);
                        },
                    }
                }
            },
            _ => {},
        }
    }
}

proof fn lemma_star_case_low(
    p: Program,
    o: MatchOptions,
    s: Seq<u8>,
    pc: int,
    pi: int,
    end: int,
    at: bool,
)
    requires
        0 <= pi <= s.len(),
    ensures
        o.nocase ==> star_case(p, o, s, pc, pi, end, at) == star_case(p, o, lowered(s), pc, pi, end, at),
        star_case(p, o, s, pc, pi, end, at) matches Some(r) ==> pi <= r <= s.len(),
    decreases span(pc, end), 1int, s.len() + 3, 0int,
{
    let t = lowered(s);
    lemma_seg_end(s, o.mode, pi);
    lemma_seg_end_low(s, o.mode, pi);
    if !(0 <= pc < end) {
    } else {
        if pi < s.len() {
            assert(t[pi] == lower_spec(s[pi]));
        }
        if at && pi < s.len() && s[pi] == 46u8 && !o.dot {
            lemma_run_low(p, o, s, pc + 1, pi, end, at);
        } else if pc + 1 >= end {
        } else {
            match lit_of(p, pc + 1) {
                Some(need) => {
                    lemma_star_skip_low(p, o, s, pc, pi, end, need, 0);
                },
                None => {
                    lemma_star_back_low(p, o, s, pc, pi, end, seg_end(s, o.mode, pi));
                },
            }
        }
    }
}

proof fn lemma_star_skip_low(
    p: Program,
    o: MatchOptions,
    s: Seq<u8>,
    pc: int,
    pi: int,
    end: int,
    need: Seq<u8>,
    k: int,
)
    requires
        0 <= pi <= s.len(),
    ensures
        o.nocase ==> star_skip(p, o, s, pc, pi, end, need, k) == star_skip(p, o, lowered(s), pc, pi, end, need, k),
        star_skip(p, o, s, pc, pi, end, need, k) matches Some(r) ==> pi <= r <= s.len(),
    decreases span(pc, end), 1int, seg_end(s, o.mode, pi) - pi + 1 - k, 0int,
{
    let se = seg_end(s, o.mode, pi);
    lemma_seg_end(s, o.mode, pi);
    lemma_seg_end_low(s, o.mode, pi);
    if !(0 <= pc < end) || k < 0 || k > se - pi {
    } else {
        let hay = s.subrange(pi, se);
        lemma_low_sub(s, pi, se);
        lemma_occurs_low(hay, need, k);
        if occurs_at(hay, need, k, o.nocase) {
            lemma_run_low(p, o, s, pc + 1, pi + k, end, false);
        }
        lemma_star_skip_low(p, o, s, pc, pi, end, need, k + 1);
    }
}

proof fn lemma_star_back_low(
    p: Program,
    o: MatchOptions,
    s: Seq<u8>,
    pc: int,
    pi: int,
    end: int,
    probe: int,
)
    requires
        0 <= pi,
        probe <= s.len(),
    ensures
        o.nocase ==> star_back(p, o, s, pc, pi, end, probe) == star_back(p, o, lowered(s), pc, pi, end, probe),
        star_back(p, o, s, pc, pi, end, probe) matches Some(r) ==> pi <= r <= s.len(),
    decreases span(pc, end), 1int, probe - pi, 0int,
{
    if !(0 <= pc < end) || probe < pi {
    } else {
        lemma_run_low(p, o, s, pc + 1, probe, end, false);
        if probe != pi {
            lemma_star_back_low(p, o, s, pc, pi, end, probe - 1);
        }
    }
}

proof fn lemma_globstar_case_low(
    p: Program,
    o: MatchOptions,
    s: Seq<u8>,
    pc: int,
    pi: int,
    end: int,
    at: bool,
)
    requires
        0 <= pi <= s.len(),
    ensures
        o.nocase ==> globstar_case(p, o, s, pc, pi, end, at) == globstar_case(p, o, lowered(s), pc, pi, end, at),
        globstar_case(p, o, s, pc, pi, end, at) matches Some(r) ==> pi <= r <= s.len(),
    decreases span(pc, end), 1int, s.len() + 3, 0int,
{
    if !(0 <= pc < end) {
    } else if pc + 1 >= end {
    } else {
        match lit_of(p, pc + 1) {
            Some(need) => {
                lemma_gskip_low(p, o, s, pc, pi, end, need, false, at, 0);
            },
            None => {
                if p.code@[pc + 1] is Sep && lit_of(p, pc + 2) is Some {
                    lemma_gskip_low(p, o, s, pc, pi, end, lit_of(p, pc + 2)->0, true, at, 0);
                } else {
                    lemma_gloop_low(p, o, s, pc, pi, end, at, pi);
                }
            },
        }
    }
}

proof fn lemma_gskip_low(
    p: Program,
    o: MatchOptions,
    s: Seq<u8>,
    pc: int,
    pi: int,
    end: int,
    need: Seq<u8>,
    lead: bool,
    at: bool,
    k: int,
)
    requires
        0 <= pi <= s.len(),
    ensures
        o.nocase ==> gskip(p, o, s, pc, pi, end, need, lead, at, k) == gskip(p, o, lowered(s), pc, pi, end, need, lead, at, k),
        gskip(p, o, s, pc, pi, end, need, lead, at, k) matches Some(r) ==> pi <= r <= s.len(),
    decreases span(pc, end), 1int, s.len() - pi + 1 - k, 0int,
{
    let t = lowered(s);
    if !(0 <= pc < end) || k < 0 || k > s.len() - pi {
    } else {
        let hay = s.subrange(pi, s.len() as int);
        lemma_low_sub(s, pi, s.len() as int);
        lemma_occurs_low(hay, need, k);
        if occurs_at(hay, need, k, o.nocase) {
            let abs = pi + k;
            if abs > 0 {
                assert(t[abs - 1] == lower_spec(s[abs - 1]));
            }
            let next = if lead {
                pc + 2
            } else {
                pc + 1
            };
            lemma_run_low(p, o, s, next, abs, end, at || abs == 0);
        }
        lemma_gskip_low(p, o, s, pc, pi, end, need, lead, at, k + 1);
    }
}

proof fn lemma_gloop_low(
    p: Program,
    o: MatchOptions,
    s: Seq<u8>,
    pc: int,
    pi: int,
    end: int,
    at: bool,
    probe: int,
)
    ensures
        o.nocase ==> gloop(p, o, s, pc, pi, end, at, probe) == gloop(p, o, lowered(s), pc, pi, end, at, probe),
        gloop(p, o, s, pc, pi, end, at, probe) matches Some(r) ==> probe <= r <= s.len(),
    decreases span(pc, end), 1int, s.len() + 1 - probe, 0int,
{
    if !(0 <= pc < end) || probe < 0 || probe > s.len() {
    } else {
        let a2 = at || probe == 0;
        lemma_run_low(p, o, s, pc + 1, probe, end, a2);
        lemma_run_low(p, o, s, pc + 2, probe, end, a2);
        if probe < s.len() {
            lemma_gloop_low(p, o, s, pc, pi, end, at, probe + 1);
        }
    }
}

pub(crate) proof fn lemma_alt_run_low(
    p: Program,
    o: MatchOptions,
    s: Seq<u8>,
    pc: int,
    end: int,
    e: int,
    i: int,
    x: int,
    at: bool,
)
    requires
        0 <= x <= s.len(),
    ensures
        o.nocase ==> alt_run(p, o, s, pc, end, e, i, x, at) == alt_run(p, o, lowered(s), pc, end, e, i, x, at),
        alt_run(p, o, s, pc, end, e, i, x, at) matches Some(r) ==> x <= r <= s.len(),
    decreases span(pc, end), 0int, 0int, 0int,
{
    if !(0 <= pc < e && e <= end) || i < 0 || i >= p.alt_table@.len() {
    } else {
        let alt = p.alt_table@[i] as int;
        if pc < alt {
            lemma_run_low(p, o, s, alt, x, e - 1, at);
        }
    }
}

proof fn lemma_brace_alts_low(
    p: Program,
    o: MatchOptions,
    s: Seq<u8>,
    pc: int,
    pi: int,
    end: int,
    at: bool,
    b: int,
    e: int,
    i: int,
)
    requires
        0 <= pi <= s.len(),
    ensures
        o.nocase ==> brace_alts(p, o, s, pc, pi, end, at, b, e, i) == brace_alts(p, o, lowered(s), pc, pi, end, at, b, e, i),
        brace_alts(p, o, s, pc, pi, end, at, b, e, i) matches Some(r) ==> pi <= r <= s.len(),
    decreases span(pc, end), 1int, 0int, b - i,
{
    if !(0 <= pc < e && e <= end) || i < 0 || i >= b {
    } else {
        lemma_alt_run_low(p, o, s, pc, end, e, i, pi, at);
        match alt_run(p, o, s, pc, end, e, i, pi, at) {
            Some(ep) => {
                lemma_run_low(p, o, s, e, ep, end, false);
            },
            None => {},
        }
        lemma_brace_alts_low(p, o, s, pc, pi, end, at, b, e, i + 1);
    }
}

proof fn lemma_first_alt_low(
    p: Program,
    o: MatchOptions,
    s: Seq<u8>,
    pc: int,
    end: int,
    b: int,
    e: int,
    x: int,
    at: bool,
    k: int,
)
    requires
        0 <= x <= s.len(),
    ensures
        o.nocase ==> first_alt(p, o, s, pc, end, b, e, x, at, k) == first_alt(p, o, lowered(s), pc, end, b, e, x, at, k),
        first_alt(p, o, s, pc, end, b, e, x, at, k) matches Some(r) ==> x <= r <= s.len(),
    decreases span(pc, end), 1int, 0int, b - k,
{
    if k < 0 || k >= b {
    } else {
        lemma_alt_run_low(p, o, s, pc, end, e, k, x, at);
        lemma_first_alt_low(p, o, s, pc, end, b, e, x, at, k + 1);
    }
}

proof fn lemma_adv_low(
    p: Program,
    o: MatchOptions,
    s: Seq<u8>,
    pc: int,
    end: int,
    b: int,
    e: int,
    pi: int,
    at: bool,
    cur: int,
    k: int,
)
    requires
        0 <= cur <= s.len(),
    ensures
        o.nocase ==> adv(p, o, s, pc, end, b, e, pi, at, cur, k) == adv(p, o, lowered(s), pc, end, b, e, pi, at, cur, k),
        adv(p, o, s, pc, end, b, e, pi, at, cur, k) matches Some(r) ==> cur < r <= s.len(),
    decreases span(pc, end), 1int, s.len() + 1 - cur, b - k,
{
    if k < 0 || k >= b {
    } else {
        lemma_alt_run_low(p, o, s, pc, end, e, k, cur, at && cur == pi);
        lemma_adv_low(p, o, s, pc, end, b, e, pi, at, cur, k + 1);
    }
}

proof fn lemma_star_ext_low(
    p: Program,
    o: MatchOptions,
    s: Seq<u8>,
    pc: int,
    end: int,
    a: int,
    b: int,
    e: int,
    pi: int,
    at: bool,
    cur: int,
)
    requires
        0 <= cur <= s.len(),
    ensures
        o.nocase ==> star_ext(p, o, s, pc, end, a, b, e, pi, at, cur) == star_ext(p, o, lowered(s), pc, end, a, b, e, pi, at, cur),
        star_ext(p, o, s, pc, end, a, b, e, pi, at, cur) matches Some(r) ==> cur <= r <= s.len(),
    decreases span(pc, end), 1int, s.len() + 1 - cur, b + 1,
{
    if !(0 <= a <= b) {
    } else {
        lemma_adv_low(p, o, s, pc, end, b, e, pi, at, cur, a);
        match adv(p, o, s, pc, end, b, e, pi, at, cur, a) {
            None => {},
            Some(r) => {
                lemma_star_ext_low(p, o, s, pc, end, a, b, e, pi, at, r);
            },
        }
    }
}

proof fn lemma_neg_hit_low(
    p: Program,
    o: MatchOptions,
    s: Seq<u8>,
    pc: int,
    end: int,
    b: int,
    e: int,
    pi: int,
    at: bool,
    hi: int,
    k: int,
)
    requires
        0 <= pi <= s.len(),
    ensures
        o.nocase ==> neg_hit(p, o, s, pc, end, b, e, pi, at, hi, k) == neg_hit(p, o, lowered(s), pc, end, b, e, pi, at, hi, k),
    decreases span(pc, end), 1int, 0int, b - k,
{
    if k < 0 || k >= b {
    } else {
        lemma_alt_run_low(p, o, s, pc, end, e, k, pi, at);
        lemma_neg_hit_low(p, o, s, pc, end, b, e, pi, at, hi, k + 1);
    }
}

pub(crate) proof fn lemma_ext_low(
    p: Program,
    o: MatchOptions,
    s: Seq<u8>,
    pc: int,
    end: int,
    kind: ExtKind,
    a: int,
    b: int,
    e: int,
    pi: int,
    at: bool,
)
    requires
        0 <= pi <= s.len(),
    ensures
        o.nocase ==> ext_spec(p, o, s, pc, end, kind, a, b, e, pi, at) == ext_spec(p, o, lowered(s), pc, end, kind, a, b, e, pi, at),
        ext_spec(p, o, s, pc, end, kind, a, b, e, pi, at) matches Some(r) ==> pi <= r <= s.len(),
    decreases span(pc, end), 1int, s.len() + 3, 0int,
{
    match kind {
        ExtKind::At => {
            lemma_first_alt_low(p, o, s, pc, end, b, e, pi, at, a);
        },
        ExtKind::Optional => {
            lemma_first_alt_low(p, o, s, pc, end, b, e, pi, at, a);
        },
        ExtKind::Star => {
            lemma_star_ext_low(p, o, s, pc, end, a, b, e, pi, at, pi);
        },
        ExtKind::Plus => {
            lemma_adv_low(p, o, s, pc, end, b, e, pi, at, pi, a);
            lemma_star_ext_low(p, o, s, pc, end, a, b, e, pi, at, pi);
        },
        ExtKind::Negate => {
            lemma_seg_end(s, o.mode, pi);
            lemma_seg_end_low(s, o.mode, pi);
            let se = seg_end(s, o.mode, pi);
            lemma_neg_hit_low(p, o, s, pc, end, b, e, pi, at, se, a);
        },
    }
}

proof fn lemma_tail_low(p: Program, o: MatchOptions, s: Seq<u8>, off: u32, l: u32, packed: u64)
    requires
        o.nocase,
        l <= s.len(),
    ensures
        tail_eq_spec(p, o, s, off, l, packed) == tail_eq_spec(p, o, lowered(s), off, l, packed),
{
    let n = s.len() as int;
    lemma_low_sub(s, n - l, n);
    lemma_cased_low(tail_of(s, l as int), p.pool_range(off, l));
}

proof fn lemma_suffix_hit_low(p: Program, o: MatchOptions, s: Seq<u8>, off: u32, len: u32)
    requires
        o.nocase,
    ensures
        suffix_hit(p, o, s, off, len) == suffix_hit(p, o, lowered(s), off, len),
{
    let t = lowered(s);
    let n = s.len() as int;
    lemma_occurs_low(s, p.pool_range(off, len), n - len);
    lemma_seg_start_low(s, o.mode, n);
    lemma_seg_start(s, o.mode, n);
    let ss = seg_start(s, o.mode, n);
    if ss < n {
        assert(t[ss] == lower_spec(s[ss]));
    }
}

/// Under `nocase`, every base matcher gives an input and its lower-cased form the same answer.
proof fn lemma_base_low(m: MatcherFn, p: Program, o: MatchOptions, s: Seq<u8>)
    requires
        o.nocase,
    ensures
        base_spec(m, p, o, s) == base_spec(m, p, o, lowered(s)),
{
    let t = lowered(s);
    let n = s.len() as int;
    let len = p.code@.len() as int;
    lemma_run_low(p, o, s, 0, 0, len, true);
    if let Some(pf) = p.prefilter {
        let lit = p.pool_range(pf.0, pf.1);
        if exists|j: int| occurs_at(s, lit, j, o.nocase) {
            let j = choose|j: int| occurs_at(s, lit, j, o.nocase);
            lemma_occurs_low(s, lit, j);
        }
        if exists|j: int| occurs_at(t, lit, j, o.nocase) {
            let j = choose|j: int| occurs_at(t, lit, j, o.nocase);
            lemma_occurs_low(s, lit, j);
        }
    }
    assert(prefilter_spec(p, o, s) == prefilter_spec(p, o, t));
    assert(anchored_spec(p, o, s) == anchored_spec(p, o, t));
    if anywhere_spec(p, o, s) {
        let i = choose|i: int| 0 <= i <= s.len() && #[trigger] hit_from(p, o, s, i);
        lemma_run_low(p, o, s, 0, i, len, i == 0);
        assert(hit_from(p, o, t, i));
    }
    if anywhere_spec(p, o, t) {
        let i = choose|i: int| 0 <= i <= t.len() && #[trigger] hit_from(p, o, t, i);
        lemma_run_low(p, o, s, 0, i, len, i == 0);
        assert(hit_from(p, o, s, i));
    }
    lemma_cased_low(s, p.pool@);
    match p.shape {
        crate::compile::FastShape::PrefixStar { prefix_len } => {
            let pl = prefix_len as int;
            lemma_occurs_low(s, p.pool@.subrange(0, pl), 0);
            if n >= pl {
                if pl > 0 {
                    assert(t[pl - 1] == lower_spec(s[pl - 1]));
                }
                if n > pl {
                    assert(t[pl] == lower_spec(s[pl]));
                }
                lemma_low_sub(s, pl, n);
                lemma_has_sep_low(s.subrange(pl, n), o.mode);
            }
        },
        crate::compile::FastShape::PrefixStarSuffix { prefix_len, suffix_off, suffix_len } => {
            let pl = prefix_len as int;
            let sl = suffix_len as int;
            lemma_occurs_low(s, p.pool@.subrange(0, pl), 0);
            lemma_occurs_low(s, p.pool_range(suffix_off, suffix_len), n - sl);
            if n >= pl + sl {
                if pl > 0 {
                    assert(t[pl - 1] == lower_spec(s[pl - 1]));
                }
                if n - sl > pl {
                    assert(t[pl] == lower_spec(s[pl]));
                }
                lemma_low_sub(s, pl, n - sl);
                lemma_has_sep_low(s.subrange(pl, n - sl), o.mode);
            }
        },
        crate::compile::FastShape::GlobstarLiteral { suffix_off, suffix_len } => {
            let sl = suffix_len as int;
            lemma_occurs_low(s, p.pool_range(suffix_off, suffix_len), 0);
            lemma_occurs_low(s, p.pool_range(suffix_off, suffix_len), n - sl);
            if n >= sl + 1 {
                assert(t[n - sl - 1] == lower_spec(s[n - sl - 1]));
            }
        },
        crate::compile::FastShape::GlobstarStarSuffix { suffix_off, suffix_len } => {
            lemma_suffix_hit_low(p, o, s, suffix_off, suffix_len);
        },
        crate::compile::FastShape::GlobstarStarSuffixes { suffixes_off, suffixes_len } => {
            let sp = crate::matcher::globstar_star_suffixes_spec(p, o, s);
            let tp = crate::matcher::globstar_star_suffixes_spec(p, o, t);
            if sp {
                let i = choose|i: int|
                    suffixes_off <= i < suffixes_off + suffixes_len && suffix_hit(
                        p,
                        o,
                        s,
                        (#[trigger] p.suffix_table@[i]).0,
                        p.suffix_table@[i].1,
                    );
                lemma_suffix_hit_low(p, o, s, p.suffix_table@[i].0, p.suffix_table@[i].1);
            }
            if tp {
                let i = choose|i: int|
                    suffixes_off <= i < suffixes_off + suffixes_len && suffix_hit(
                        p,
                        o,
                        t,
                        (#[trigger] p.suffix_table@[i]).0,
                        p.suffix_table@[i].1,
                    );
                lemma_suffix_hit_low(p, o, s, p.suffix_table@[i].0, p.suffix_table@[i].1);
            }
            assert(sp == tp);
        },
        crate::compile::FastShape::EndsWithLiteral { tail_off, tail_len, tail_packed } => {
            lemma_seg_start_low(s, o.mode, n);
            lemma_seg_start(s, o.mode, n);
            let ss = seg_start(s, o.mode, n);
            if ss < n {
                assert(t[ss] == lower_spec(s[ss]));
            }
            if n >= tail_len {
                lemma_tail_low(p, o, s, tail_off, tail_len, tail_packed);
            }
        },
        crate::compile::FastShape::DottedExtensions { exts_off, exts_len } => {
            lemma_seg_start_low(s, o.mode, n);
            lemma_seg_start(s, o.mode, n);
            let ss = seg_start(s, o.mode, n);
            if ss < n {
                assert(t[ss] == lower_spec(s[ss]));
            }
            let sp = crate::matcher::dotted_extensions_spec(p, o, s);
            let tp = crate::matcher::dotted_extensions_spec(p, o, t);
            if sp {
                let i = choose|i: int|
                    exts_off <= i < exts_off + exts_len && n - ss >= (#[trigger] p.ext_table@[i]).len
                        && tail_eq_spec(
                        p,
                        o,
                        s,
                        p.ext_table@[i].off,
                        p.ext_table@[i].len,
                        p.ext_table@[i].packed,
                    ) && !(!o.dot && s[ss] == 46u8 && n - ss != p.ext_table@[i].len);
                lemma_tail_low(p, o, s, p.ext_table@[i].off, p.ext_table@[i].len, p.ext_table@[i].packed);
            }
            if tp {
                let i = choose|i: int|
                    exts_off <= i < exts_off + exts_len && n - ss >= (#[trigger] p.ext_table@[i]).len
                        && tail_eq_spec(
                        p,
                        o,
                        t,
                        p.ext_table@[i].off,
                        p.ext_table@[i].len,
                        p.ext_table@[i].packed,
                    ) && !(!o.dot && t[ss] == 46u8 && n - ss != p.ext_table@[i].len);
                lemma_tail_low(p, o, s, p.ext_table@[i].off, p.ext_table@[i].len, p.ext_table@[i].packed);
            }
            assert(sp == tp);
        },
        _ => {},
    }
}

/// Under `nocase`, a program gives an input and its lower-cased form the same answer.
proof fn lemma_matches_low(p: Program, o: MatchOptions, s: Seq<u8>)
    requires
        o.nocase,
    ensures
        matches_spec(p, o, s) == matches_spec(p, o, lowered(s)),
{
    let n = s.len() as int;
    match p.matcher_fn {
        MatcherFn::BasenamePosixThenBase => {
            lemma_seg_start_low(s, Mode::Posix, n);
            lemma_seg_start(s, Mode::Posix, n);
            lemma_low_sub(s, seg_start(s, Mode::Posix, n), n);
            lemma_base_low(p.base_matcher_fn, p, o, basename_spec(s, Mode::Posix));
        },
        MatcherFn::BasenameWindowsThenBase => {
            lemma_seg_start_low(s, Mode::Windows, n);
            lemma_seg_start(s, Mode::Windows, n);
            lemma_low_sub(s, seg_start(s, Mode::Windows, n), n);
            lemma_base_low(p.base_matcher_fn, p, o, basename_spec(s, Mode::Windows));
        },
        MatcherFn::NegateThenBase => {
            lemma_seg_start_low(s, o.mode, n);
            lemma_seg_start(s, o.mode, n);
            lemma_low_sub(s, seg_start(s, o.mode, n), n);
            lemma_base_low(p.base_matcher_fn, p, o, basename_spec(s, o.mode));
            lemma_base_low(p.base_matcher_fn, p, o, s);
        },
        m => {
            lemma_base_low(m, p, o, s);
        },
    }
}

/// With `nocase`, a compiled pattern gives the same answer for two inputs that differ only in
/// the case of their ASCII letters.
pub proof fn law_nocase_ignores_input_case(
    pat: Seq<u8>,
    o: MatchOptions,
    g: CompiledGlob,
    s1: Seq<u8>,
    s2: Seq<u8>,
)
    requires
        compiled_ok(pat, o, Ok(g)),
        o.nocase,
        lowered(s1) == lowered(s2),
    ensures
        matches_spec(g.program, g.opts, s1) == matches_spec(g.program, g.opts, s2),
{
    lemma_matches_low(g.program, g.opts, s1);
    lemma_matches_low(g.program, g.opts, s2);
}

} // verus!
