use vstd::prelude::*;

use crate::ast::{class_set, ExtKind};
use crate::compile::{classes_view, Instr, MatcherFn, Program};
use crate::matcher::{anywhere_spec, base_spec, hit_from};
use crate::options::MatchOptions;
use crate::search::lemma_seg_end;
use crate::util::lower_spec;
use crate::vm::{
    adv, alt_run, brace_alts, ext_spec, first_alt, gloop, globstar_case, gskip, lit_of, neg_hit,
    run, span, star_back, star_case, star_ext, star_skip,
};

verus! {

// What a program answers depends only on the contents of its tables and on the options
// matching reads: two programs whose instructions, pool, classes and alternative table read
// the same run alike under two option sets that agree on case, dots, separators and
// `contains`.

/// Two well-formed programs whose instructions, pool, class sets and alternative table agree.
pub open spec fn same_code(p1: Program, p2: Program) -> bool {
    &&& p1.wf()
    &&& p2.wf()
    &&& p1.code@ == p2.code@
    &&& p1.pool@ == p2.pool@
    &&& classes_view(p1.classes@) == classes_view(p2.classes@)
    &&& p1.alt_table@ == p2.alt_table@
}

/// Two option sets that agree in everything matching reads.
pub open spec fn same_match_opts(o1: MatchOptions, o2: MatchOptions) -> bool {
    &&& o1.nocase == o2.nocase
    &&& o1.dot == o2.dot
    &&& o1.mode == o2.mode
    &&& o1.contains == o2.contains
}

/// Two programs that agree in everything a base matcher reads.
pub open spec fn same_matching(p1: Program, p2: Program) -> bool {
    &&& same_code(p1, p2)
    &&& p1.suffix_table@ == p2.suffix_table@
    &&& p1.ext_table@ == p2.ext_table@
    &&& p1.shape == p2.shape
    &&& p1.prefilter == p2.prefilter
}

pub proof fn lemma_run_same(
    p1: Program,
    p2: Program,
    o: MatchOptions,
    o2: MatchOptions,
    s: Seq<u8>,
    pc: int,
    pi: int,
    end: int,
    at: bool,
)
    requires
        same_code(p1, p2),
        same_match_opts(o, o2),
    ensures
        run(p1, o, s, pc, pi, end, at) == run(p2, o2, s, pc, pi, end, at),
    decreases span(pc, end), 2int, 0int, 0int,
{
    if pc >= end || pc < 0 || pc >= p1.code@.len() {
    } else {
        match p1.code@[pc] {
            Instr::Literal { off, len } => {
                let need = p1.pool_range(off, len);
                if pi + len > s.len() || !crate::search::cased_eq(
                    s.subrange(pi, pi + len),
                    need,
                    o.nocase,
                ) {
                } else {
                    lemma_run_same(
                        p1,
                        p2,
                        o,
                        o2,
                        s,
                        pc + 1,
                        pi + len,
                        end,
                        len > 0 && crate::options::sep_spec(o.mode, need[len - 1]),
                    );
                }
            },
            Instr::Sep => {
                lemma_run_same(p1, p2, o, o2, s, pc + 1, pi + 1, end, true);
            },
            Instr::AnyChar => {
                lemma_run_same(p1, p2, o, o2, s, pc + 1, pi + 1, end, false);
            },
            Instr::Class(idx) => {
                assert(crate::compile::instr_ok(p1, p1.code@[pc]));
                let i = idx as int;
                assert(classes_view(p1.classes@)[i] == classes_view(p2.classes@)[i]);
                let b = if o.nocase {
                    lower_spec(s[pi])
                } else {
                    s[pi]
                };
                assert(class_set(p1.classes@[i]).contains(b) == class_set(p2.classes@[i]).contains(b));
                lemma_run_same(p1, p2, o, o2, s, pc + 1, pi + 1, end, false);
            },
            Instr::Star => {
                lemma_star_case_same(p1, p2, o, o2, s, pc, pi, end, at);
            },
            Instr::Globstar => {
                lemma_globstar_case_same(p1, p2, o, o2, s, pc, pi, end, at);
            },
            Instr::BraceOpen { alts, end: e } => {
                lemma_brace_alts_same(
                    p1,
                    p2,
                    o,
                    o2,
                    s,
                    pc,
                    pi,
                    end,
                    at,
                    alts.1 as int,
                    e as int,
                    alts.0 as int,
                );
            },
            Instr::ExtglobOpen { kind, alts, end: e } => {
                if pc < e && e <= end {
                    lemma_ext_same(
                        p1,
                        p2,
                        o,
                        o2,
                        s,
                        pc,
                        end,
                        kind,
                        alts.0 as int,
                        alts.1 as int,
                        e as int,
                        pi,
                        at,
                    );
                    match ext_spec(p1, o, s, pc, end, kind, alts.0 as int, alts.1 as int, e as int, pi, at) {
                        None => {},
                        Some(q) => {
                            lemma_run_same(p1, p2, o, o2, s, e as int, q, end, false);
                        },
                    }
                }
            },
            _ => {},
        }
    }
}

proof fn lemma_star_case_same(
    p1: Program,
    p2: Program,
    o: MatchOptions,
    o2: MatchOptions,
    s: Seq<u8>,
    pc: int,
    pi: int,
    end: int,
    at: bool,
)
    requires
        same_code(p1, p2),
        same_match_opts(o, o2),
    ensures
        star_case(p1, o, s, pc, pi, end, at) == star_case(p2, o2, s, pc, pi, end, at),
    decreases span(pc, end), 1int, s.len() + 3, 0int,
{
    if !(0 <= pc < end) || pi < 0 || pi > s.len() {
    } else if at && pi < s.len() && s[pi] == 46u8 && !o.dot {
        lemma_run_same(p1, p2, o, o2, s, pc + 1, pi, end, at);
    } else if pc + 1 >= end {
    } else {
        lemma_seg_end(s, o.mode, pi);
        match lit_of(p1, pc + 1) {
            Some(need) => {
                lemma_star_skip_same(p1, p2, o, o2, s, pc, pi, end, need, 0);
            },
            None => {
                lemma_star_back_same(p1, p2, o, o2, s, pc, pi, end, crate::search::seg_end(s, o.mode, pi));
            },
        }
    }
}

proof fn lemma_star_skip_same(
    p1: Program,
    p2: Program,
    o: MatchOptions,
    o2: MatchOptions,
    s: Seq<u8>,
    pc: int,
    pi: int,
    end: int,
    need: Seq<u8>,
    k: int,
)
    requires
        same_code(p1, p2),
        same_match_opts(o, o2),
    ensures
        star_skip(p1, o, s, pc, pi, end, need, k) == star_skip(p2, o2, s, pc, pi, end, need, k),
    decreases span(pc, end), 1int, crate::search::seg_end(s, o.mode, pi) - pi + 1 - k, 0int,
{
    let hay = s.subrange(pi, crate::search::seg_end(s, o.mode, pi));
    if !(0 <= pc < end) || pi < 0 || pi > s.len() || k < 0 || k > crate::search::seg_end(s, o.mode, pi) - pi {
    } else {
        if crate::search::occurs_at(hay, need, k, o.nocase) {
            lemma_run_same(p1, p2, o, o2, s, pc + 1, pi + k, end, false);
        }
        lemma_star_skip_same(p1, p2, o, o2, s, pc, pi, end, need, k + 1);
    }
}

proof fn lemma_star_back_same(
    p1: Program,
    p2: Program,
    o: MatchOptions,
    o2: MatchOptions,
    s: Seq<u8>,
    pc: int,
    pi: int,
    end: int,
    probe: int,
)
    requires
        same_code(p1, p2),
        same_match_opts(o, o2),
    ensures
        star_back(p1, o, s, pc, pi, end, probe) == star_back(p2, o2, s, pc, pi, end, probe),
    decreases span(pc, end), 1int, probe - pi, 0int,
{
    if !(0 <= pc < end) || probe < pi {
    } else {
        lemma_run_same(p1, p2, o, o2, s, pc + 1, probe, end, false);
        if probe != pi {
            lemma_star_back_same(p1, p2, o, o2, s, pc, pi, end, probe - 1);
        }
    }
}

proof fn lemma_globstar_case_same(
    p1: Program,
    p2: Program,
    o: MatchOptions,
    o2: MatchOptions,
    s: Seq<u8>,
    pc: int,
    pi: int,
    end: int,
    at: bool,
)
    requires
        same_code(p1, p2),
        same_match_opts(o, o2),
    ensures
        globstar_case(p1, o, s, pc, pi, end, at) == globstar_case(p2, o2, s, pc, pi, end, at),
    decreases span(pc, end), 1int, s.len() + 3, 0int,
{
    if !(0 <= pc < end) || pi < 0 || pi > s.len() {
    } else if pc + 1 >= end {
    } else {
        match lit_of(p1, pc + 1) {
            Some(need) => {
                lemma_gskip_same(p1, p2, o, o2, s, pc, pi, end, need, false, at, 0);
            },
            None => {
                if p1.code@[pc + 1] is Sep && lit_of(p1, pc + 2) is Some {
                    lemma_gskip_same(p1, p2, o, o2, s, pc, pi, end, lit_of(p1, pc + 2)->0, true, at, 0);
                } else {
                    lemma_gloop_same(p1, p2, o, o2, s, pc, pi, end, at, pi);
                }
            },
        }
    }
}

proof fn lemma_gskip_same(
    p1: Program,
    p2: Program,
    o: MatchOptions,
    o2: MatchOptions,
    s: Seq<u8>,
    pc: int,
    pi: int,
    end: int,
    need: Seq<u8>,
    lead: bool,
    at: bool,
    k: int,
)
    requires
        same_code(p1, p2),
        same_match_opts(o, o2),
    ensures
        gskip(p1, o, s, pc, pi, end, need, lead, at, k) == gskip(p2, o2, s, pc, pi, end, need, lead, at, k),
    decreases span(pc, end), 1int, s.len() - pi + 1 - k, 0int,
{
    let hay = s.subrange(pi, s.len() as int);
    if !(0 <= pc < end) || pi < 0 || pi > s.len() || k < 0 || k > s.len() - pi {
    } else {
        if crate::search::occurs_at(hay, need, k, o.nocase) {
            let abs = pi + k;
            let next = if lead {
                pc + 2
            } else {
                pc + 1
            };
            lemma_run_same(p1, p2, o, o2, s, next, abs, end, at || abs == 0);
        }
        lemma_gskip_same(p1, p2, o, o2, s, pc, pi, end, need, lead, at, k + 1);
    }
}

proof fn lemma_gloop_same(
    p1: Program,
    p2: Program,
    o: MatchOptions,
    o2: MatchOptions,
    s: Seq<u8>,
    pc: int,
    pi: int,
    end: int,
    at: bool,
    probe: int,
)
    requires
        same_code(p1, p2),
        same_match_opts(o, o2),
    ensures
        gloop(p1, o, s, pc, pi, end, at, probe) == gloop(p2, o2, s, pc, pi, end, at, probe),
    decreases span(pc, end), 1int, s.len() + 1 - probe, 0int,
{
    if !(0 <= pc < end) || probe < 0 || probe > s.len() {
    } else {
        let a2 = at || probe == 0;
        lemma_run_same(p1, p2, o, o2, s, pc + 1, probe, end, a2);
        if pc + 2 <= end {
            lemma_run_same(p1, p2, o, o2, s, pc + 2, probe, end, a2);
        }
        if probe < s.len() {
            lemma_gloop_same(p1, p2, o, o2, s, pc, pi, end, at, probe + 1);
        }
    }
}

proof fn lemma_alt_run_same(
    p1: Program,
    p2: Program,
    o: MatchOptions,
    o2: MatchOptions,
    s: Seq<u8>,
    pc: int,
    end: int,
    e: int,
    i: int,
    x: int,
    at: bool,
)
    requires
        same_code(p1, p2),
        same_match_opts(o, o2),
    ensures
        alt_run(p1, o, s, pc, end, e, i, x, at) == alt_run(p2, o2, s, pc, end, e, i, x, at),
    decreases span(pc, end), 0int, 0int, 0int,
{
    if !(0 <= pc < e && e <= end) || i < 0 || i >= p1.alt_table@.len() {
    } else {
        let alt = p1.alt_table@[i] as int;
        if pc < alt {
            lemma_run_same(p1, p2, o, o2, s, alt, x, e - 1, at);
        }
    }
}

proof fn lemma_brace_alts_same(
    p1: Program,
    p2: Program,
    o: MatchOptions,
    o2: MatchOptions,
    s: Seq<u8>,
    pc: int,
    pi: int,
    end: int,
    at: bool,
    b: int,
    e: int,
    i: int,
)
    requires
        same_code(p1, p2),
        same_match_opts(o, o2),
    ensures
        brace_alts(p1, o, s, pc, pi, end, at, b, e, i) == brace_alts(p2, o2, s, pc, pi, end, at, b, e, i),
    decreases span(pc, end), 1int, 0int, b - i,
{
    if !(0 <= pc < e && e <= end) || i < 0 || i >= b {
    } else {
        lemma_alt_run_same(p1, p2, o, o2, s, pc, end, e, i, pi, at);
        match alt_run(p1, o, s, pc, end, e, i, pi, at) {
            Some(ep) => {
                lemma_run_same(p1, p2, o, o2, s, e, ep, end, false);
            },
            None => {},
        }
        lemma_brace_alts_same(p1, p2, o, o2, s, pc, pi, end, at, b, e, i + 1);
    }
}

proof fn lemma_first_alt_same(
    p1: Program,
    p2: Program,
    o: MatchOptions,
    o2: MatchOptions,
    s: Seq<u8>,
    pc: int,
    end: int,
    b: int,
    e: int,
    x: int,
    at: bool,
    k: int,
)
    requires
        same_code(p1, p2),
        same_match_opts(o, o2),
    ensures
        first_alt(p1, o, s, pc, end, b, e, x, at, k) == first_alt(p2, o2, s, pc, end, b, e, x, at, k),
    decreases span(pc, end), 1int, 0int, b - k,
{
    if k < 0 || k >= b {
    } else {
        lemma_alt_run_same(p1, p2, o, o2, s, pc, end, e, k, x, at);
        lemma_first_alt_same(p1, p2, o, o2, s, pc, end, b, e, x, at, k + 1);
    }
}

proof fn lemma_adv_same(
    p1: Program,
    p2: Program,
    o: MatchOptions,
    o2: MatchOptions,
    s: Seq<u8>,
    pc: int,
    end: int,
    b: int,
    e: int,
    pi: int,
    at: bool,
    cur: int,
    k: int,
)
    requires
        same_code(p1, p2),
        same_match_opts(o, o2),
    ensures
        adv(p1, o, s, pc, end, b, e, pi, at, cur, k) == adv(p2, o2, s, pc, end, b, e, pi, at, cur, k),
    decreases span(pc, end), 1int, s.len() + 1 - cur, b - k,
{
    if k < 0 || k >= b {
    } else {
        lemma_alt_run_same(p1, p2, o, o2, s, pc, end, e, k, cur, at && cur == pi);
        lemma_adv_same(p1, p2, o, o2, s, pc, end, b, e, pi, at, cur, k + 1);
    }
}

proof fn lemma_star_ext_same(
    p1: Program,
    p2: Program,
    o: MatchOptions,
    o2: MatchOptions,
    s: Seq<u8>,
    pc: int,
    end: int,
    a: int,
    b: int,
    e: int,
    pi: int,
    at: bool,
    cur: int,
)
    requires
        same_code(p1, p2),
        same_match_opts(o, o2),
    ensures
        star_ext(p1, o, s, pc, end, a, b, e, pi, at, cur) == star_ext(p2, o2, s, pc, end, a, b, e, pi, at, cur),
    decreases span(pc, end), 1int, s.len() + 1 - cur, b + 1,
{
    if !(0 <= a <= b) || cur < 0 || cur > s.len() {
    } else {
        lemma_adv_same(p1, p2, o, o2, s, pc, end, b, e, pi, at, cur, a);
        match adv(p1, o, s, pc, end, b, e, pi, at, cur, a) {
            None => {},
            Some(r) => {
                if cur < r <= s.len() {
                    lemma_star_ext_same(p1, p2, o, o2, s, pc, end, a, b, e, pi, at, r);
                }
            },
        }
    }
}

proof fn lemma_neg_hit_same(
    p1: Program,
    p2: Program,
    o: MatchOptions,
    o2: MatchOptions,
    s: Seq<u8>,
    pc: int,
    end: int,
    b: int,
    e: int,
    pi: int,
    at: bool,
    hi: int,
    k: int,
)
    requires
        same_code(p1, p2),
        same_match_opts(o, o2),
    ensures
        neg_hit(p1, o, s, pc, end, b, e, pi, at, hi, k) == neg_hit(p2, o2, s, pc, end, b, e, pi, at, hi, k),
    decreases span(pc, end), 1int, 0int, b - k,
{
    if k < 0 || k >= b {
    } else {
        lemma_alt_run_same(p1, p2, o, o2, s, pc, end, e, k, pi, at);
        lemma_neg_hit_same(p1, p2, o, o2, s, pc, end, b, e, pi, at, hi, k + 1);
    }
}

proof fn lemma_ext_same(
    p1: Program,
    p2: Program,
    o: MatchOptions,
    o2: MatchOptions,
    s: Seq<u8>,
    pc: int,
    end: int,
    kind: ExtKind,
    a: int,
    b: int,
    e: int,
    pi: int,
    at: bool,
)
    requires
        same_code(p1, p2),
        same_match_opts(o, o2),
    ensures
        ext_spec(p1, o, s, pc, end, kind, a, b, e, pi, at) == ext_spec(p2, o2, s, pc, end, kind, a, b, e, pi, at),
    decreases span(pc, end), 1int, s.len() + 3, 0int,
{
    if pi < 0 || pi > s.len() {
    } else {
        match kind {
            ExtKind::At => {
                lemma_first_alt_same(p1, p2, o, o2, s, pc, end, b, e, pi, at, a);
            },
            ExtKind::Optional => {
                lemma_first_alt_same(p1, p2, o, o2, s, pc, end, b, e, pi, at, a);
            },
            ExtKind::Star => {
                lemma_star_ext_same(p1, p2, o, o2, s, pc, end, a, b, e, pi, at, pi);
            },
            ExtKind::Plus => {
                lemma_adv_same(p1, p2, o, o2, s, pc, end, b, e, pi, at, pi, a);
                lemma_star_ext_same(p1, p2, o, o2, s, pc, end, a, b, e, pi, at, pi);
            },
            ExtKind::Negate => {
                let se = crate::search::seg_end(s, o.mode, pi);
                lemma_neg_hit_same(p1, p2, o, o2, s, pc, end, b, e, pi, at, se, a);
            },
        }
    }
}

/// Two programs that agree in everything a base matcher reads give every base matcher the
/// same answer.
pub proof fn lemma_base_same(m: MatcherFn, p1: Program, p2: Program, o: MatchOptions, o2: MatchOptions, s: Seq<u8>)
    requires
        same_matching(p1, p2),
        same_match_opts(o, o2),
    ensures
        base_spec(m, p1, o, s) == base_spec(m, p2, o2, s),
{
    let n = p1.code@.len() as int;
    lemma_run_same(p1, p2, o, o2, s, 0, 0, n, true);
    assert forall|i: int| 0 <= i <= s.len() implies #[trigger] hit_from(p1, o, s, i) == hit_from(
        p2,
        o2,
        s,
        i,
    ) by {
        lemma_run_same(p1, p2, o, o2, s, 0, i, n, i == 0);
    }
    if let Some(pf) = p1.prefilter {
        assert(p1.pool_range(pf.0, pf.1) == p2.pool_range(pf.0, pf.1));
    }
    assert(crate::matcher::prefilter_spec(p1, o, s) == crate::matcher::prefilter_spec(p2, o2, s));
    if anywhere_spec(p1, o, s) {
        let i = choose|i: int| 0 <= i <= s.len() && #[trigger] hit_from(p1, o, s, i);
        assert(hit_from(p2, o2, s, i));
    }
    if anywhere_spec(p2, o2, s) {
        let i = choose|i: int| 0 <= i <= s.len() && #[trigger] hit_from(p2, o2, s, i);
        assert(hit_from(p1, o, s, i));
    }
}

} // verus!
