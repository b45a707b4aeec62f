use vstd::prelude::*;

use crate::ast::ExtKind;
use crate::compile::{Instr, Program};
use crate::options::{sep_spec, MatchOptions};
use crate::search::{cased_eq, eq_cased, find_cased_from, lemma_seg_end, occurs_at, seg_end};
use crate::util::lower_spec;

verus! {

/// The measure that every step of the matcher decreases: the size of the code region left.
pub open spec fn span(pc: int, end: int) -> int {
    if pc < end {
        end - pc
    } else {
        0
    }
}

/// The literal at `pc`, if the instruction there is a literal.
pub open spec fn lit_of(p: Program, pc: int) -> Option<Seq<u8>> {
    if 0 <= pc < p.code@.len() {
        match p.code@[pc] {
            Instr::Literal { off, len } => Some(p.pool_range(off, len)),
            _ => None,
        }
    } else {
        None
    }
}

/// A region that ends the whole program must, unless `contains` is set, end with the input.
pub open spec fn anchored_end(p: Program, o: MatchOptions, end: int) -> bool {
    !o.contains && end >= p.code@.len()
}

/// The result of a match that reached the end of its region at `pi`: refused when the
/// region ends the anchored program but the input goes on.
pub open spec fn finish(p: Program, o: MatchOptions, s: Seq<u8>, pi: int, end: int) -> Option<int> {
    if anchored_end(p, o, end) && pi != s.len() {
        None
    } else {
        Some(pi)
    }
}

/// Runs the instructions `pc .. end` of `p` on `s` from index `pi`. `at` tells whether `pi`
/// is at the start of a path segment. The result is the index where the region's match
/// ends, or `None` when it fails.
pub open spec fn run(
    p: Program,
    o: MatchOptions,
    s: Seq<u8>,
    pc: int,
    pi: int,
    end: int,
    at: bool,
) -> Option<int>
    decreases span(pc, end), 2int, 0int, 0int,
{
    if pc >= end || pc < 0 || pc >= p.code@.len() {
        finish(p, o, s, pi, end)
    } else {
        match p.code@[pc] {
            Instr::Literal { off, len } => {
                let need = p.pool_range(off, len);
                if pi + len > s.len() || !cased_eq(s.subrange(pi, pi + len), need, o.nocase) {
                    None
                } else {
                    run(
                        p,
                        o,
                        s,
                        pc + 1,
                        pi + len,
                        end,
                        len > 0 && sep_spec(o.mode, need[len - 1]),
                    )
                }
            },
            Instr::Sep => {
                if pi >= s.len() || !sep_spec(o.mode, s[pi]) {
                    None
                } else {
                    run(p, o, s, pc + 1, pi + 1, end, true)
                }
            },
            Instr::AnyChar => {
                if pi >= s.len() || sep_spec(o.mode, s[pi]) || (at && s[pi] == 46u8 && !o.dot) {
                    None
                } else {
                    run(p, o, s, pc + 1, pi + 1, end, false)
                }
            },
            Instr::Class(idx) => {
                if pi >= s.len() || sep_spec(o.mode, s[pi]) || (at && s[pi] == 46u8 && !o.dot)
                    || !p.classes@[idx as int].has(
                    if o.nocase {
                        lower_spec(s[pi])
                    } else {
                        s[pi]
                    },
                ) {
                    None
                } else {
                    run(p, o, s, pc + 1, pi + 1, end, false)
                }
            },
            Instr::Star => star_case(p, o, s, pc, pi, end, at),
            Instr::Globstar => globstar_case(p, o, s, pc, pi, end, at),
            Instr::BraceOpen { alts, end: e } => brace_alts(
                p,
                o,
                s,
                pc,
                pi,
                end,
                at,
                alts.1 as int,
                e as int,
                alts.0 as int,
            ),
            Instr::ExtglobOpen { kind, alts, end: e } => {
                if !(pc < e && e <= end) {
                    None
                } else {
                    match ext_spec(p, o, s, pc, end, kind, alts.0 as int, alts.1 as int, e as int, pi, at) {
                        None => None,
                        Some(q) => run(p, o, s, e as int, q, end, false),
                    }
                }
            },
            _ => Some(pi),
        }
    }
}

/// `*` at `pc`: a run of non-separator bytes, not starting with a dot at the start of a
/// segment (unless `dot`).
pub open spec fn star_case(
    p: Program,
    o: MatchOptions,
    s: Seq<u8>,
    pc: int,
    pi: int,
    end: int,
    at: bool,
) -> Option<int>
    decreases span(pc, end), 1int, s.len() + 3, 0int,
{
    if !(0 <= pc < end) || pi < 0 || pi > s.len() {
        None
    } else if at && pi < s.len() && s[pi] == 46u8 && !o.dot {
        run(p, o, s, pc + 1, pi, end, at)
    } else if pc + 1 >= end {
        finish(p, o, s, seg_end(s, o.mode, pi), end)
    } else {
        proof {
            lemma_seg_end(s, o.mode, pi);
        }
        match lit_of(p, pc + 1) {
            Some(need) => star_skip(p, o, s, pc, pi, end, need, 0),
            None => star_back(p, o, s, pc, pi, end, seg_end(s, o.mode, pi)),
        }
    }
}

/// `*` followed by a literal: tries, in increasing order, each index of the segment where
/// the literal occurs.
pub open spec fn star_skip(
    p: Program,
    o: MatchOptions,
    s: Seq<u8>,
    pc: int,
    pi: int,
    end: int,
    need: Seq<u8>,
    k: int,
) -> Option<int>
    decreases span(pc, end), 1int, seg_end(s, o.mode, pi) - pi + 1 - k, 0int,
{
    let hay = s.subrange(pi, seg_end(s, o.mode, pi));
    if !(0 <= pc < end) || pi < 0 || pi > s.len() || k < 0 || k > seg_end(s, o.mode, pi) - pi {
        None
    } else if occurs_at(hay, need, k, o.nocase) {
        match run(p, o, s, pc + 1, pi + k, end, false) {
            Some(e) => Some(e),
            None => star_skip(p, o, s, pc, pi, end, need, k + 1),
        }
    } else {
        star_skip(p, o, s, pc, pi, end, need, k + 1)
    }
}

/// `*` followed by anything else: tries the longest run first, then shorter ones.
pub open spec fn star_back(
    p: Program,
    o: MatchOptions,
    s: Seq<u8>,
    pc: int,
    pi: int,
    end: int,
    probe: int,
) -> Option<int>
    decreases span(pc, end), 1int, probe - pi, 0int,
{
    if !(0 <= pc < end) || probe < pi {
        None
    } else {
        match run(p, o, s, pc + 1, probe, end, false) {
            Some(e) => Some(e),
            None => if probe == pi {
                None
            } else {
                star_back(p, o, s, pc, pi, end, probe - 1)
            },
        }
    }
}

/// `**` at `pc`.
pub open spec fn globstar_case(
    p: Program,
    o: MatchOptions,
    s: Seq<u8>,
    pc: int,
    pi: int,
    end: int,
    at: bool,
) -> Option<int>
    decreases span(pc, end), 1int, s.len() + 3, 0int,
{
    if !(0 <= pc < end) || pi < 0 || pi > s.len() {
        None
    } else if pc + 1 >= end {
        Some(s.len() as int)
    } else {
        match lit_of(p, pc + 1) {
            Some(need) => gskip(p, o, s, pc, pi, end, need, false, at, 0),
            None => {
                if p.code@[pc + 1] is Sep && lit_of(p, pc + 2) is Some {
                    gskip(p, o, s, pc, pi, end, lit_of(p, pc + 2)->0, true, at, 0)
                } else {
                    gloop(p, o, s, pc, pi, end, at, pi)
                }
            },
        }
    }
}

/// `**` followed by a literal (or by a separator and a literal): tries, in increasing
/// order, each index of the rest of the input where the literal occurs.
pub open spec fn gskip(
    p: Program,
    o: MatchOptions,
    s: Seq<u8>,
    pc: int,
    pi: int,
    end: int,
    need: Seq<u8>,
    lead: bool,
    at: bool,
    k: int,
) -> Option<int>
    decreases span(pc, end), 1int, s.len() - pi + 1 - k, 0int,
{
    let hay = s.subrange(pi, s.len() as int);
    if !(0 <= pc < end) || pi < 0 || pi > s.len() || k < 0 || k > s.len() - pi {
        None
    } else if occurs_at(hay, need, k, o.nocase) {
        let abs = pi + k;
        if !lead || abs == 0 || sep_spec(o.mode, s[abs - 1]) {
            match run(
                p,
                o,
                s,
                if lead {
                    pc + 2
                } else {
                    pc + 1
                },
                abs,
                end,
                at || abs == 0,
            ) {
                Some(e) => Some(e),
                None => gskip(p, o, s, pc, pi, end, need, lead, at, k + 1),
            }
        } else {
            gskip(p, o, s, pc, pi, end, need, lead, at, k + 1)
        }
    } else {
        gskip(p, o, s, pc, pi, end, need, lead, at, k + 1)
    }
}

/// `**` followed by anything else: tries every start index from `probe` on, first with the
/// next instruction and, when that is a separator and the index starts a segment, also
/// without it (so that `**` may stand for no segment at all).
pub open spec fn gloop(
    p: Program,
    o: MatchOptions,
    s: Seq<u8>,
    pc: int,
    pi: int,
    end: int,
    at: bool,
    probe: int,
) -> Option<int>
    decreases span(pc, end), 1int, s.len() + 1 - probe, 0int,
{
    if !(0 <= pc < end) || probe < 0 || probe > s.len() {
        None
    } else {
        let a2 = at || probe == 0;
        match run(p, o, s, pc + 1, probe, end, a2) {
            Some(e) => Some(e),
            None => {
                let r2 = if pc + 1 < p.code@.len() && p.code@[pc + 1] is Sep && pc + 2 <= end && (
                probe == 0 || sep_spec(o.mode, s[probe - 1])) {
                    run(p, o, s, pc + 2, probe, end, a2)
                } else {
                    None
                };
                match r2 {
                    Some(e) => Some(e),
                    None => if probe >= s.len() {
                        None
                    } else {
                        gloop(p, o, s, pc, pi, end, at, probe + 1)
                    },
                }
            },
        }
    }
}

/// Runs alternative `i` of the group opened at `pc` (whose end is `e`) from index `x`.
pub open spec fn alt_run(
    p: Program,
    o: MatchOptions,
    s: Seq<u8>,
    pc: int,
    end: int,
    e: int,
    i: int,
    x: int,
    at: bool,
) -> Option<int>
    decreases span(pc, end), 0int, 0int, 0int,
{
    if !(0 <= pc < e && e <= end) || i < 0 || i >= p.alt_table@.len() {
        None
    } else {
        let alt = p.alt_table@[i] as int;
        if pc < alt {
            run(p, o, s, alt, x, e - 1, at)
        } else {
            None
        }
    }
}

/// A brace group at `pc`: the first alternative `i .. b` whose match can be continued
/// after the group.
pub open spec fn brace_alts(
    p: Program,
    o: MatchOptions,
    s: Seq<u8>,
    pc: int,
    pi: int,
    end: int,
    at: bool,
    b: int,
    e: int,
    i: int,
) -> Option<int>
    decreases span(pc, end), 1int, 0int, b - i,
{
    if !(0 <= pc < e && e <= end) || i < 0 || i >= b {
        None
    } else {
        match alt_run(p, o, s, pc, end, e, i, pi, at) {
            Some(ep) => match run(p, o, s, e, ep, end, false) {
                Some(f) => Some(f),
                None => brace_alts(p, o, s, pc, pi, end, at, b, e, i + 1),
            },
            None => brace_alts(p, o, s, pc, pi, end, at, b, e, i + 1),
        }
    }
}

/// The first alternative `k .. b` that matches from `x`.
pub open spec fn first_alt(
    p: Program,
    o: MatchOptions,
    s: Seq<u8>,
    pc: int,
    end: int,
    b: int,
    e: int,
    x: int,
    at: bool,
    k: int,
) -> Option<int>
    decreases span(pc, end), 1int, 0int, b - k,
{
    if k < 0 || k >= b {
        None
    } else {
        match alt_run(p, o, s, pc, end, e, k, x, at) {
            Some(r) => Some(r),
            None => first_alt(p, o, s, pc, end, b, e, x, at, k + 1),
        }
    }
}

/// The end of the first alternative `k .. b` that matches a non-empty stretch from `cur`.
pub open spec fn adv(
    p: Program,
    o: MatchOptions,
    s: Seq<u8>,
    pc: int,
    end: int,
    b: int,
    e: int,
    pi: int,
    at: bool,
    cur: int,
    k: int,
) -> Option<int>
    decreases span(pc, end), 1int, s.len() + 1 - cur, b - k,
{
    if k < 0 || k >= b {
        None
    } else {
        match alt_run(p, o, s, pc, end, e, k, cur, at && cur == pi) {
            Some(r) => if cur < r <= s.len() {
                Some(r)
            } else {
                adv(p, o, s, pc, end, b, e, pi, at, cur, k + 1)
            },
            None => adv(p, o, s, pc, end, b, e, pi, at, cur, k + 1),
        }
    }
}

/// Repeats `adv` from `cur` for as long as it advances; the index reached.
pub open spec fn star_ext(
    p: Program,
    o: MatchOptions,
    s: Seq<u8>,
    pc: int,
    end: int,
    a: int,
    b: int,
    e: int,
    pi: int,
    at: bool,
    cur: int,
) -> Option<int>
    decreases span(pc, end), 1int, s.len() + 1 - cur, b + 1,
{
    if !(0 <= a <= b) || cur < 0 || cur > s.len() {
        Some(cur)
    } else {
        match adv(p, o, s, pc, end, b, e, pi, at, cur, a) {
            None => Some(cur),
            Some(r) => if cur < r <= s.len() {
                star_ext(p, o, s, pc, end, a, b, e, pi, at, r)
            } else {
                Some(cur)
            },
        }
    }
}

/// `r` is a match ending exactly at `hi`.
pub open spec fn ends_at(r: Option<int>, hi: int) -> bool {
    r == Some(hi)
}

/// Whether some alternative `k .. b` matching from `pi` ends exactly at `hi`.
pub open spec fn neg_hit(
    p: Program,
    o: MatchOptions,
    s: Seq<u8>,
    pc: int,
    end: int,
    b: int,
    e: int,
    pi: int,
    at: bool,
    hi: int,
    k: int,
) -> bool
    decreases span(pc, end), 1int, 0int, b - k,
{
    if k < 0 || k >= b {
        false
    } else {
        ends_at(alt_run(p, o, s, pc, end, e, k, pi, at), hi) || neg_hit(
            p,
            o,
            s,
            pc,
            end,
            b,
            e,
            pi,
            at,
            hi,
            k + 1,
        )
    }
}

/// An extended-glob group at `pc` with alternatives `a .. b`: the index where the group's
/// match ends.
pub open spec fn ext_spec(
    p: Program,
    o: MatchOptions,
    s: Seq<u8>,
    pc: int,
    end: int,
    kind: ExtKind,
    a: int,
    b: int,
    e: int,
    pi: int,
    at: bool,
) -> Option<int>
    decreases span(pc, end), 1int, s.len() + 3, 0int,
{
    if pi < 0 || pi > s.len() {
        None
    } else {
        match kind {
            ExtKind::At => first_alt(p, o, s, pc, end, b, e, pi, at, a),
            ExtKind::Optional => match first_alt(p, o, s, pc, end, b, e, pi, at, a) {
                Some(r) => Some(r),
                None => Some(pi),
            },
            ExtKind::Star => star_ext(p, o, s, pc, end, a, b, e, pi, at, pi),
            ExtKind::Plus => if adv(p, o, s, pc, end, b, e, pi, at, pi, a) is None {
                None
            } else {
                star_ext(p, o, s, pc, end, a, b, e, pi, at, pi)
            },
            ExtKind::Negate => {
                let se = seg_end(s, o.mode, pi);
                if neg_hit(p, o, s, pc, end, b, e, pi, at, se, a) {
                    None
                } else {
                    Some(se)
                }
            },
        }
    }
}

pub open spec fn oi(r: Option<usize>) -> Option<int> {
    match r {
        Some(e) => Some(e as int),
        None => None,
    }
}

/// Positions without an occurrence of the literal do not change `star_skip`.
proof fn lemma_star_skip_gap(
    p: Program,
    o: MatchOptions,
    s: Seq<u8>,
    pc: int,
    pi: int,
    end: int,
    need: Seq<u8>,
    k: int,
    j: int,
)
    requires
        0 <= k <= j,
        forall|m: int|
            k <= m < j ==> !occurs_at(s.subrange(pi, seg_end(s, o.mode, pi)), need, m, o.nocase),
    ensures
        star_skip(p, o, s, pc, pi, end, need, k) == star_skip(p, o, s, pc, pi, end, need, j)
            || star_skip(p, o, s, pc, pi, end, need, k) is None && star_skip(
            p,
            o,
            s,
            pc,
            pi,
            end,
            need,
            j,
        ) is None,
    decreases j - k,
{
    if k < j {
        lemma_star_skip_gap(p, o, s, pc, pi, end, need, k + 1, j);
    }
}

/// With no occurrence left, `star_skip` fails.
proof fn lemma_star_skip_none(
    p: Program,
    o: MatchOptions,
    s: Seq<u8>,
    pc: int,
    pi: int,
    end: int,
    need: Seq<u8>,
    k: int,
)
    requires
        0 <= k,
        forall|m: int|
            k <= m ==> !occurs_at(s.subrange(pi, seg_end(s, o.mode, pi)), need, m, o.nocase),
    ensures
        star_skip(p, o, s, pc, pi, end, need, k) is None,
    decreases seg_end(s, o.mode, pi) - pi + 1 - k,
{
    if !(!(0 <= pc < end) || pi < 0 || pi > s.len() || k > seg_end(s, o.mode, pi) - pi) {
        lemma_star_skip_none(p, o, s, pc, pi, end, need, k + 1);
    }
}

/// Positions without an occurrence of the literal do not change `gskip`.
proof fn lemma_gskip_gap(
    p: Program,
    o: MatchOptions,
    s: Seq<u8>,
    pc: int,
    pi: int,
    end: int,
    need: Seq<u8>,
    lead: bool,
    at: bool,
    k: int,
    j: int,
)
    requires
        0 <= k <= j,
        forall|m: int|
            k <= m < j ==> !occurs_at(s.subrange(pi, s.len() as int), need, m, o.nocase),
    ensures
        gskip(p, o, s, pc, pi, end, need, lead, at, k) == gskip(
            p,
            o,
            s,
            pc,
            pi,
            end,
            need,
            lead,
            at,
            j,
        ) || gskip(p, o, s, pc, pi, end, need, lead, at, k) is None && gskip(
            p,
            o,
            s,
            pc,
            pi,
            end,
            need,
            lead,
            at,
            j,
        ) is None,
    decreases j - k,
{
    if k < j {
        lemma_gskip_gap(p, o, s, pc, pi, end, need, lead, at, k + 1, j);
    }
}

/// With no occurrence left, `gskip` fails.
proof fn lemma_gskip_none(
    p: Program,
    o: MatchOptions,
    s: Seq<u8>,
    pc: int,
    pi: int,
    end: int,
    need: Seq<u8>,
    lead: bool,
    at: bool,
    k: int,
)
    requires
        0 <= k,
        forall|m: int| k <= m ==> !occurs_at(s.subrange(pi, s.len() as int), need, m, o.nocase),
    ensures
        gskip(p, o, s, pc, pi, end, need, lead, at, k) is None,
    decreases s.len() - pi + 1 - k,
{
    if !(!(0 <= pc < end) || pi < 0 || pi > s.len() || k > s.len() - pi) {
        lemma_gskip_none(p, o, s, pc, pi, end, need, lead, at, k + 1);
    }
}

/// `neg_hit` holds exactly when some alternative from `k` on ends exactly at `hi`.
proof fn lemma_neg_hit(
    p: Program,
    o: MatchOptions,
    s: Seq<u8>,
    pc: int,
    end: int,
    b: int,
    e: int,
    pi: int,
    at: bool,
    hi: int,
    k: int,
)
    requires
        0 <= k,
    ensures
        neg_hit(p, o, s, pc, end, b, e, pi, at, hi, k) == exists|j: int|
            k <= j < b && ends_at(#[trigger] alt_run(p, o, s, pc, end, e, j, pi, at), hi),
    decreases b - k,
{
    if k < b {
        lemma_neg_hit(p, o, s, pc, end, b, e, pi, at, hi, k + 1);
        if ends_at(alt_run(p, o, s, pc, end, e, k, pi, at), hi) {
        }
    }
}

/// The matcher's state: a program, its options and the input.
pub struct MatchCtx<'a> {
    pub prog: &'a Program,
    pub opts: &'a MatchOptions,
    pub input: &'a [u8],
}

impl<'a> MatchCtx<'a> {
    pub open spec fn inv(&self) -> bool {
        self.prog.wf()
    }

    /// Runs the instructions `pc .. end_pc` from index `pi`.
    pub fn exec(&self, pc0: u32, pi0: usize, end_pc: u32, at0: bool) -> (r: Option<usize>)
        requires
            self.inv(),
            pi0 <= self.input@.len(),
            end_pc <= self.prog.code@.len(),
        ensures
            oi(r) == run(
                *self.prog,
                *self.opts,
                self.input@,
                pc0 as int,
                pi0 as int,
                end_pc as int,
                at0,
            ),
            r matches Some(e) ==> pi0 <= e <= self.input@.len(),
        decreases span(pc0 as int, end_pc as int), 2int, 0int,
    {
        let ghost p = *self.prog;
        let ghost o = *self.opts;
        let ghost s = self.input@;
        let n = self.input.len();
        let pool_len = self.prog.pool.len();
        let mut pc = pc0;
        let mut pi = pi0;
        let mut at = at0;
        while pc < end_pc
            invariant
                self.inv(),
                p == *self.prog,
                o == *self.opts,
                s == self.input@,
                end_pc <= p.code@.len(),
                n == s.len(),
                pool_len == p.pool@.len(),
                pc0 <= pc,
                pi0 <= pi <= n,
                run(p, o, s, pc0 as int, pi0 as int, end_pc as int, at0) == run(
                    p,
                    o,
                    s,
                    pc as int,
                    pi as int,
                    end_pc as int,
                    at,
                ),
            decreases end_pc - pc,
        {
            let instr = self.prog.code[pc as usize];
            assert(crate::compile::instr_ok(p, p.code@[pc as int]));
            match instr {
                Instr::Literal { off, len } => {
                    let st = off as usize;
                    let l = len as usize;
                    let need = &self.prog.pool[st..st + l];
                    if l > n - pi {
                        return None;
                    }
                    let hay = &self.input[pi..pi + l];
                    if !eq_cased(hay, need, self.opts.nocase) {
                        return None;
                    }
                    at = l > 0 && self.opts.mode.is_sep(need[l - 1]);
                    pi = pi + l;
                    pc = pc + 1;
                },
                Instr::Sep => {
                    if pi >= n {
                        return None;
                    }
                    if !self.opts.mode.is_sep(self.input[pi]) {
                        return None;
                    }
                    pi = pi + 1;
                    at = true;
                    pc = pc + 1;
                },
                Instr::AnyChar => {
                    if pi >= n {
                        return None;
                    }
                    let b = self.input[pi];
                    if self.opts.mode.is_sep(b) {
                        return None;
                    }
                    if at && b == 46u8 && !self.opts.dot {
                        return None;
                    }
                    pi = pi + 1;
                    at = false;
                    pc = pc + 1;
                },
                Instr::Class(idx) => {
                    if pi >= n {
                        return None;
                    }
                    let b = self.input[pi];
                    if self.opts.mode.is_sep(b) {
                        return None;
                    }
                    if at && b == 46u8 && !self.opts.dot {
                        return None;
                    }
                    let cls = self.prog.classes[idx as usize];
                    let bb = if self.opts.nocase {
                        crate::util::ascii_lower(b)
                    } else {
                        b
                    };
                    if !cls.contains(bb) {
                        return None;
                    }
                    pi = pi + 1;
                    at = false;
                    pc = pc + 1;
                },
                Instr::Star => {
                    return self.star_case(pc, pi, end_pc, at);
                },
                Instr::Globstar => {
                    return self.globstar_case(pc, pi, end_pc, at);
                },
                Instr::BraceOpen { alts, end } => {
                    return self.brace_case(pc, pi, end_pc, at, alts.0, alts.1, end);
                },
                Instr::ExtglobOpen { kind, alts, end } => {
                    if !(pc < end && end <= end_pc) {
                        return None;
                    }
                    let r = self.match_extglob(pc, end_pc, kind, alts.0, alts.1, end, pi, at);
                    match r {
                        None => {
                            return None;
                        },
                        Some(q) => {
                            return self.exec(end, q, end_pc, false);
                        },
                    }
                },
                _ => {
                    return Some(pi);
                },
            }
        }
        self.finish_at(pi, end_pc)
    }

    /// `finish`: `pi`, unless the region ends the anchored program and the input goes on.
    fn finish_at(&self, pi: usize, end_pc: u32) -> (r: Option<usize>)
        requires
            self.inv(),
            pi <= self.input@.len(),
        ensures
            oi(r) == finish(*self.prog, *self.opts, self.input@, pi as int, end_pc as int),
    {
        if !self.opts.contains && end_pc as usize >= self.prog.code.len() && pi != self.input.len() {
            None
        } else {
            Some(pi)
        }
    }

    fn star_case(&self, pc: u32, pi: usize, end_pc: u32, at: bool) -> (r: Option<usize>)
        requires
            self.inv(),
            pi <= self.input@.len(),
            pc < end_pc <= self.prog.code@.len(),
        ensures
            oi(r) == star_case(
                *self.prog,
                *self.opts,
                self.input@,
                pc as int,
                pi as int,
                end_pc as int,
                at,
            ),
            r matches Some(e) ==> pi <= e <= self.input@.len(),
        decreases span(pc as int, end_pc as int), 1int, 0int,
    {
        let ghost s = self.input@;
        let n = self.input.len();
        let next = pc + 1;
        let dot_blocked = at && pi < n && self.input[pi] == 46u8 && !self.opts.dot;
        if dot_blocked {
            return self.exec(next, pi, end_pc, at);
        }
        let mut max = pi;
        while max < n && !self.opts.mode.is_sep(self.input[max])
            invariant
                s == self.input@,
                n == s.len(),
                pi <= max <= n,
                seg_end(s, self.opts.mode, pi as int) == seg_end(s, self.opts.mode, max as int),
            decreases n - max,
        {
            max = max + 1;
        }
        proof {
            lemma_seg_end(s, self.opts.mode, pi as int);
        }
        if next >= end_pc {
            return self.finish_at(max, end_pc);
        }
        match self.prog.code[next as usize] {
            Instr::Literal { off, len } => {
                assert(crate::compile::instr_ok(*self.prog, self.prog.code@[next as int]));
                let _pool_len = self.prog.pool.len();
                let need = &self.prog.pool[off as usize..off as usize + len as usize];
                return self.star_skip(pc, pi, end_pc, need, max);
            },
            _ => {},
        }
        assert(lit_of(*self.prog, pc + 1) is None);
        let mut probe = max;
        loop
            invariant
                self.inv(),
                s == self.input@,
                star_case(*self.prog, *self.opts, s, pc as int, pi as int, end_pc as int, at)
                    == star_back(
                    *self.prog,
                    *self.opts,
                    s,
                    pc as int,
                    pi as int,
                    end_pc as int,
                    max as int,
                ),
                n == s.len(),
                pc < end_pc <= self.prog.code@.len(),
                next == pc + 1,
                pi <= probe <= max <= n,
                star_back(
                    *self.prog,
                    *self.opts,
                    s,
                    pc as int,
                    pi as int,
                    end_pc as int,
                    max as int,
                ) == star_back(
                    *self.prog,
                    *self.opts,
                    s,
                    pc as int,
                    pi as int,
                    end_pc as int,
                    probe as int,
                ),
            decreases probe,
        {
            let r = self.exec(next, probe, end_pc, false);
            if let Some(e) = r {
                return Some(e);
            }
            if probe == pi {
                return None;
            }
            probe = probe - 1;
        }
    }

    fn star_skip(&self, pc: u32, pi: usize, end_pc: u32, needle: &[u8], horizon: usize) -> (r: Option<
        usize,
    >)
        requires
            self.inv(),
            pi <= self.input@.len(),
            pc < end_pc <= self.prog.code@.len(),
            horizon == seg_end(self.input@, self.opts.mode, pi as int),
        ensures
            oi(r) == star_skip(
                *self.prog,
                *self.opts,
                self.input@,
                pc as int,
                pi as int,
                end_pc as int,
                needle@,
                0,
            ),
            r matches Some(e) ==> pi <= e <= self.input@.len(),
        decreases span(pc as int, end_pc as int), 0int, 1int,
    {
        let ghost p = *self.prog;
        let ghost o = *self.opts;
        let ghost s = self.input@;
        proof {
            lemma_seg_end(s, o.mode, pi as int);
        }
        let hay = &self.input[pi..horizon];
        let mut search_from: usize = 0;
        loop
            invariant
                self.inv(),
                p == *self.prog,
                o == *self.opts,
                s == self.input@,
                pc < end_pc <= p.code@.len(),
                pi <= horizon <= s.len(),
                horizon == seg_end(s, o.mode, pi as int),
                hay@ == s.subrange(pi as int, horizon as int),
                search_from <= hay@.len(),
                star_skip(p, o, s, pc as int, pi as int, end_pc as int, needle@, 0) == star_skip(
                    p,
                    o,
                    s,
                    pc as int,
                    pi as int,
                    end_pc as int,
                    needle@,
                    search_from as int,
                ),
            decreases hay@.len() - search_from,
        {
            let found = find_cased_from(hay, needle, search_from, self.opts.nocase);
            let rel = match found {
                None => {
                    proof {
                        lemma_star_skip_none(
                            p,
                            o,
                            s,
                            pc as int,
                            pi as int,
                            end_pc as int,
                            needle@,
                            search_from as int,
                        );
                    }
                    return None;
                },
                Some(x) => x,
            };
            proof {
                lemma_star_skip_gap(
                    p,
                    o,
                    s,
                    pc as int,
                    pi as int,
                    end_pc as int,
                    needle@,
                    search_from as int,
                    rel as int,
                );
            }
            let probe = pi + rel;
            let r = self.exec(pc + 1, probe, end_pc, false);
            if let Some(e) = r {
                return Some(e);
            }
            if rel >= hay.len() {
                assert(star_skip(p, o, s, pc as int, pi as int, end_pc as int, needle@, rel + 1) is None);
                return None;
            }
            search_from = rel + 1;
        }
    }

    fn globstar_case(&self, pc: u32, pi: usize, end_pc: u32, at: bool) -> (r: Option<usize>)
        requires
            self.inv(),
            pi <= self.input@.len(),
            pc < end_pc <= self.prog.code@.len(),
        ensures
            oi(r) == globstar_case(
                *self.prog,
                *self.opts,
                self.input@,
                pc as int,
                pi as int,
                end_pc as int,
                at,
            ),
            r matches Some(e) ==> pi <= e <= self.input@.len(),
        decreases span(pc as int, end_pc as int), 1int, 0int,
    {
        let ghost p = *self.prog;
        let ghost o = *self.opts;
        let ghost s = self.input@;
        let n = self.input.len();
        let code_len = self.prog.code.len();
        let _pool_len = self.prog.pool.len();
        let next = pc + 1;
        if next >= end_pc {
            return Some(n);
        }
        let followed_by_sep;
        match self.prog.code[next as usize] {
            Instr::Literal { off, len } => {
                assert(crate::compile::instr_ok(p, p.code@[next as int]));
                let need = &self.prog.pool[off as usize..off as usize + len as usize];
                return self.globstar_skip(pc, pi, end_pc, need, false, at);
            },
            Instr::Sep => {
                followed_by_sep = true;
                if (next as usize) + 1 < code_len {
                    match self.prog.code[next as usize + 1] {
                        Instr::Literal { off, len } => {
                            assert(crate::compile::instr_ok(p, p.code@[next + 1]));
                            let need = &self.prog.pool[off as usize..off as usize + len as usize];
                            return self.globstar_skip(pc, pi, end_pc, need, true, at);
                        },
                        _ => {},
                    }
                }
            },
            _ => {
                followed_by_sep = false;
            },
        }
        let mut probe = pi;
        loop
            invariant
                self.inv(),
                p == *self.prog,
                o == *self.opts,
                s == self.input@,
                n == s.len(),
                pc < end_pc <= p.code@.len(),
                next == pc + 1,
                next < end_pc,
                followed_by_sep == (p.code@[pc + 1] is Sep),
                pi <= probe <= n,
                globstar_case(p, o, s, pc as int, pi as int, end_pc as int, at) == gloop(
                    p,
                    o,
                    s,
                    pc as int,
                    pi as int,
                    end_pc as int,
                    at,
                    probe as int,
                ),
            decreases n - probe,
        {
            let a2 = at || probe == 0;
            let r = self.exec(next, probe, end_pc, a2);
            if let Some(e) = r {
                return Some(e);
            }
            if followed_by_sep && (probe == 0 || self.opts.mode.is_sep(self.input[probe - 1])) {
                let skip_pc = next + 1;
                if skip_pc <= end_pc {
                    let r2 = self.exec(skip_pc, probe, end_pc, a2);
                    if let Some(e) = r2 {
                        return Some(e);
                    }
                }
            }
            if probe >= n {
                return None;
            }
            probe = probe + 1;
        }
    }

    fn globstar_skip(
        &self,
        pc: u32,
        pi: usize,
        end_pc: u32,
        needle: &[u8],
        leading_sep: bool,
        at: bool,
    ) -> (r: Option<usize>)
        requires
            self.inv(),
            pi <= self.input@.len(),
            pc < end_pc <= self.prog.code@.len(),
            leading_sep ==> pc + 2 < self.prog.code@.len(),
        ensures
            oi(r) == gskip(
                *self.prog,
                *self.opts,
                self.input@,
                pc as int,
                pi as int,
                end_pc as int,
                needle@,
                leading_sep,
                at,
                0,
            ),
            r matches Some(e) ==> pi <= e <= self.input@.len(),
        decreases span(pc as int, end_pc as int), 0int, 1int,
    {
        let ghost p = *self.prog;
        let ghost o = *self.opts;
        let ghost s = self.input@;
        let n = self.input.len();
        let hay = &self.input[pi..n];
        let mut search_from: usize = 0;
        loop
            invariant
                self.inv(),
                p == *self.prog,
                o == *self.opts,
                s == self.input@,
                n == s.len(),
                pc < end_pc <= p.code@.len(),
                leading_sep ==> pc + 2 < p.code@.len(),
                pi <= n,
                hay@ == s.subrange(pi as int, n as int),
                search_from <= hay@.len(),
                gskip(p, o, s, pc as int, pi as int, end_pc as int, needle@, leading_sep, at, 0)
                    == gskip(
                    p,
                    o,
                    s,
                    pc as int,
                    pi as int,
                    end_pc as int,
                    needle@,
                    leading_sep,
                    at,
                    search_from as int,
                ),
            decreases hay@.len() - search_from,
        {
            let found = find_cased_from(hay, needle, search_from, self.opts.nocase);
            let rel = match found {
                None => {
                    proof {
                        lemma_gskip_none(
                            p,
                            o,
                            s,
                            pc as int,
                            pi as int,
                            end_pc as int,
                            needle@,
                            leading_sep,
                            at,
                            search_from as int,
                        );
                    }
                    return None;
                },
                Some(x) => x,
            };
            proof {
                lemma_gskip_gap(
                    p,
                    o,
                    s,
                    pc as int,
                    pi as int,
                    end_pc as int,
                    needle@,
                    leading_sep,
                    at,
                    search_from as int,
                    rel as int,
                );
            }
            let abs = pi + rel;
            let position_ok = if leading_sep {
                (abs == 0) || (abs > 0 && self.opts.mode.is_sep(self.input[abs - 1]))
            } else {
                true
            };
            if position_ok {
                let resume_pc = if leading_sep {
                    pc + 2
                } else {
                    pc + 1
                };
                let r = self.exec(resume_pc, abs, end_pc, at || abs == 0);
                if let Some(e) = r {
                    return Some(e);
                }
            }
            if rel >= hay.len() {
                assert(gskip(p, o, s, pc as int, pi as int, end_pc as int, needle@, leading_sep, at, rel + 1) is None);
                return None;
            }
            search_from = rel + 1;
        }
    }

    fn brace_case(
        &self,
        pc: u32,
        pi: usize,
        end_pc: u32,
        at: bool,
        a: u32,
        b: u32,
        e: u32,
    ) -> (r: Option<usize>)
        requires
            self.inv(),
            pi <= self.input@.len(),
            pc < end_pc <= self.prog.code@.len(),
            a <= b <= self.prog.alt_table@.len(),
        ensures
            oi(r) == brace_alts(
                *self.prog,
                *self.opts,
                self.input@,
                pc as int,
                pi as int,
                end_pc as int,
                at,
                b as int,
                e as int,
                a as int,
            ),
            r matches Some(x) ==> pi <= x <= self.input@.len(),
        decreases span(pc as int, end_pc as int), 1int, 0int,
    {
        let ghost p = *self.prog;
        let ghost o = *self.opts;
        let ghost s = self.input@;
        if !(pc < e && e <= end_pc) {
            return None;
        }
        let mut i = a;
        while i < b
            invariant
                self.inv(),
                p == *self.prog,
                o == *self.opts,
                s == self.input@,
                pi <= s.len(),
                pc < e <= end_pc <= p.code@.len(),
                a <= i <= b <= p.alt_table@.len(),
                brace_alts(p, o, s, pc as int, pi as int, end_pc as int, at, b as int, e as int, a as int)
                    == brace_alts(
                    p,
                    o,
                    s,
                    pc as int,
                    pi as int,
                    end_pc as int,
                    at,
                    b as int,
                    e as int,
                    i as int,
                ),
            decreases b - i,
        {
            let alt = self.prog.alt_table[i as usize];
            assert(alt_run(p, o, s, pc as int, end_pc as int, e as int, i as int, pi as int, at) == if pc
                < alt {
                run(p, o, s, alt as int, pi as int, e - 1, at)
            } else {
                None
            });
            if pc < alt {
                let r1 = self.exec(alt, pi, e - 1, at);
                if let Some(ep) = r1 {
                    let r2 = self.exec(e, ep, end_pc, false);
                    if let Some(f) = r2 {
                        return Some(f);
                    }
                }
            }
            i = i + 1;
        }
        None
    }

    fn alt_exec(&self, pc: u32, end_pc: u32, e: u32, i: u32, x: usize, at: bool) -> (r: Option<usize>)
        requires
            self.inv(),
            x <= self.input@.len(),
            pc < e <= end_pc <= self.prog.code@.len(),
            i < self.prog.alt_table@.len(),
        ensures
            oi(r) == alt_run(
                *self.prog,
                *self.opts,
                self.input@,
                pc as int,
                end_pc as int,
                e as int,
                i as int,
                x as int,
                at,
            ),
            r matches Some(y) ==> x <= y <= self.input@.len(),
        decreases span(pc as int, end_pc as int), 0int, 0int,
    {
        let alt = self.prog.alt_table[i as usize];
        if pc < alt {
            self.exec(alt, x, e - 1, at)
        } else {
            None
        }
    }

    fn first_alt_exec(&self, pc: u32, end_pc: u32, a: u32, b: u32, e: u32, x: usize, at: bool) -> (r:
        Option<usize>)
        requires
            self.inv(),
            x <= self.input@.len(),
            pc < e <= end_pc <= self.prog.code@.len(),
            a <= b <= self.prog.alt_table@.len(),
        ensures
            oi(r) == first_alt(
                *self.prog,
                *self.opts,
                self.input@,
                pc as int,
                end_pc as int,
                b as int,
                e as int,
                x as int,
                at,
                a as int,
            ),
            r matches Some(y) ==> x <= y <= self.input@.len(),
        decreases span(pc as int, end_pc as int), 0int, 1int,
    {
        let ghost p = *self.prog;
        let ghost o = *self.opts;
        let ghost s = self.input@;
        let mut k = a;
        while k < b
            invariant
                self.inv(),
                p == *self.prog,
                o == *self.opts,
                s == self.input@,
                x <= s.len(),
                pc < e <= end_pc <= p.code@.len(),
                a <= k <= b <= p.alt_table@.len(),
                first_alt(p, o, s, pc as int, end_pc as int, b as int, e as int, x as int, at, a as int)
                    == first_alt(
                    p,
                    o,
                    s,
                    pc as int,
                    end_pc as int,
                    b as int,
                    e as int,
                    x as int,
                    at,
                    k as int,
                ),
            decreases b - k,
        {
            let r = self.alt_exec(pc, end_pc, e, k, x, at);
            if let Some(y) = r {
                return Some(y);
            }
            k = k + 1;
        }
        None
    }

    fn adv_exec(
        &self,
        pc: u32,
        end_pc: u32,
        a: u32,
        b: u32,
        e: u32,
        pi: usize,
        at: bool,
        cur: usize,
    ) -> (r: Option<usize>)
        requires
            self.inv(),
            pi <= cur <= self.input@.len(),
            pc < e <= end_pc <= self.prog.code@.len(),
            a <= b <= self.prog.alt_table@.len(),
        ensures
            oi(r) == adv(
                *self.prog,
                *self.opts,
                self.input@,
                pc as int,
                end_pc as int,
                b as int,
                e as int,
                pi as int,
                at,
                cur as int,
                a as int,
            ),
            r matches Some(y) ==> cur < y <= self.input@.len(),
        decreases span(pc as int, end_pc as int), 0int, 1int,
    {
        let ghost p = *self.prog;
        let ghost o = *self.opts;
        let ghost s = self.input@;
        let mut k = a;
        while k < b
            invariant
                self.inv(),
                p == *self.prog,
                o == *self.opts,
                s == self.input@,
                pi <= cur <= s.len(),
                pc < e <= end_pc <= p.code@.len(),
                a <= k <= b <= p.alt_table@.len(),
                adv(p, o, s, pc as int, end_pc as int, b as int, e as int, pi as int, at, cur as int, a as int)
                    == adv(
                    p,
                    o,
                    s,
                    pc as int,
                    end_pc as int,
                    b as int,
                    e as int,
                    pi as int,
                    at,
                    cur as int,
                    k as int,
                ),
            decreases b - k,
        {
            let r = self.alt_exec(pc, end_pc, e, k, cur, at && cur == pi);
            if let Some(y) = r {
                if y > cur {
                    return Some(y);
                }
            }
            k = k + 1;
        }
        None
    }

    fn match_extglob(
        &self,
        pc: u32,
        end_pc: u32,
        kind: ExtKind,
        a: u32,
        b: u32,
        e: u32,
        pi: usize,
        at: bool,
    ) -> (r: Option<usize>)
        requires
            self.inv(),
            pi <= self.input@.len(),
            pc < e <= end_pc <= self.prog.code@.len(),
            a <= b <= self.prog.alt_table@.len(),
        ensures
            oi(r) == ext_spec(
                *self.prog,
                *self.opts,
                self.input@,
                pc as int,
                end_pc as int,
                kind,
                a as int,
                b as int,
                e as int,
                pi as int,
                at,
            ),
            r matches Some(y) ==> pi <= y <= self.input@.len(),
        decreases span(pc as int, end_pc as int), 1int, 0int,
    {
        let ghost p = *self.prog;
        let ghost o = *self.opts;
        let ghost s = self.input@;
        let n = self.input.len();
        match kind {
            ExtKind::At => self.first_alt_exec(pc, end_pc, a, b, e, pi, at),
            ExtKind::Optional => {
                let r = self.first_alt_exec(pc, end_pc, a, b, e, pi, at);
                match r {
                    Some(y) => Some(y),
                    None => Some(pi),
                }
            },
            ExtKind::Star | ExtKind::Plus => {
                let mut cur = pi;
                let first = self.adv_exec(pc, end_pc, a, b, e, pi, at, cur);
                match first {
                    None => {
                        if kind == ExtKind::Plus {
                            return None;
                        } else {
                            return Some(pi);
                        }
                    },
                    Some(y) => {
                        cur = y;
                    },
                }
                loop
                    invariant
                        self.inv(),
                        p == *self.prog,
                        o == *self.opts,
                        s == self.input@,
                        n == s.len(),
                        pi < cur <= n,
                        pc < e <= end_pc <= p.code@.len(),
                        a <= b <= p.alt_table@.len(),
                        star_ext(p, o, s, pc as int, end_pc as int, a as int, b as int, e as int, pi as int, at, pi as int)
                            == star_ext(
                            p,
                            o,
                            s,
                            pc as int,
                            end_pc as int,
                            a as int,
                            b as int,
                            e as int,
                            pi as int,
                            at,
                            cur as int,
                        ),
                        ext_spec(p, o, s, pc as int, end_pc as int, kind, a as int, b as int, e as int, pi as int, at)
                            == star_ext(
                            p,
                            o,
                            s,
                            pc as int,
                            end_pc as int,
                            a as int,
                            b as int,
                            e as int,
                            pi as int,
                            at,
                            pi as int,
                        ),
                    decreases n - cur,
                {
                    let r = self.adv_exec(pc, end_pc, a, b, e, pi, at, cur);
                    match r {
                        None => {
                            return Some(cur);
                        },
                        Some(y) => {
                            cur = y;
                        },
                    }
                }
            },
            ExtKind::Negate => {
                let mut cur = pi;
                while cur < n && !self.opts.mode.is_sep(self.input[cur])
                    invariant
                        self.inv(),
                        p == *self.prog,
                        o == *self.opts,
                        s == self.input@,
                        n == s.len(),
                        pi <= cur <= n,
                        seg_end(s, o.mode, pi as int) == seg_end(s, o.mode, cur as int),
                    decreases n - cur,
                {
                    proof {
                        lemma_seg_end(s, o.mode, cur + 1);
                    }
                    cur = cur + 1;
                }
                proof {
                    lemma_seg_end(s, o.mode, cur as int);
                    assert(seg_end(s, o.mode, pi as int) == cur);
                }
                let mut k = a;
                while k < b
                    invariant
                        self.inv(),
                        p == *self.prog,
                        o == *self.opts,
                        s == self.input@,
                        n == s.len(),
                        pi <= cur <= n,
                        cur == seg_end(s, o.mode, pi as int),
                        pc < e <= end_pc <= p.code@.len(),
                        a <= k <= b <= p.alt_table@.len(),
                        kind == ExtKind::Negate,
                        forall|j: int|
                            a <= j < k ==> alt_run(p, o, s, pc as int, end_pc as int, e as int, j, pi as int, at)
                                != Some(cur as int),
                    decreases b - k,
                {
                    let r = self.alt_exec(pc, end_pc, e, k, pi, at);
                    if r == Some(cur) {
                        proof {
                            lemma_neg_hit(p, o, s, pc as int, end_pc as int, b as int, e as int, pi as int, at, cur as int, a as int);
                            assert(ends_at(alt_run(p, o, s, pc as int, end_pc as int, e as int, k as int, pi as int, at), cur as int));
                        }
                        return None;
                    }
                    k = k + 1;
                }
                proof {
                    lemma_neg_hit(p, o, s, pc as int, end_pc as int, b as int, e as int, pi as int, at, cur as int, a as int);
                }
                Some(cur)
            },
        }
    }
}

} // verus!
