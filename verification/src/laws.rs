use vstd::prelude::*;
use vstd::utf8::encode_utf8;

use crate::api::{input_indices, kept};
use crate::ast::SNode;
use crate::compile::{compiled_ok, lowered, program_for, CompiledGlob, MatcherFn};
use crate::parse::{flush, seq_spec, Stop};
use crate::search::cased_eq;
use crate::shift::lemma_seq_shift;
use crate::congruence::{lemma_base_same, same_matching};
use crate::matcher::{base_spec, matches_spec};
use crate::options::MatchOptions;
use crate::parse::{pattern_spec, PErr, PRes};
use crate::regex_emit::re_source;
use crate::scan::{scan_spec, scan_start, walk, ScanResult};
use crate::parse::neg_end;
use crate::options::sep_spec;
use crate::set::{excluded, glob_matches, has_unnegated, matching_indices, selected_indices, selects};

verus! {

/// `filter` keeps exactly the inputs at the indices `filter_indices` reports, in the same
/// order, when both are given the same texts.
pub proof fn law_filter_agrees_with_indices(
    g: CompiledGlob,
    strs: Seq<String>,
    bytes: Seq<Vec<u8>>,
    k: int,
)
    requires
        strs.len() == bytes.len(),
        0 <= k <= strs.len(),
        strs.len() <= u32::MAX,
        forall|i: int| 0 <= i < strs.len() ==> encode_utf8((#[trigger] strs[i])@) == bytes[i]@,
    ensures
        kept(g, strs, k).len() == input_indices(g, bytes, k).len(),
        forall|j: int|
            0 <= j < kept(g, strs, k).len() ==> #[trigger] kept(g, strs, k)[j]
                == strs[input_indices(g, bytes, k)[j] as int],
    decreases k,
{
    if k > 0 {
        law_filter_agrees_with_indices(g, strs, bytes, k - 1);
        assert(encode_utf8(strs[k - 1]@) == bytes[k - 1]@);
    }
}

proof fn lemma_matching_indices(gs: Seq<CompiledGlob>, s: Seq<u8>, k: int)
    requires
        0 <= k <= gs.len() <= u32::MAX,
    ensures
        (matching_indices(gs, s, k).len() > 0) == exists|i: int|
            0 <= i < k && !gs[i].program.negated && glob_matches(gs, i, s),
        forall|j: int|
            0 <= j < matching_indices(gs, s, k).len() ==> {
                let i = #[trigger] matching_indices(gs, s, k)[j] as int;
                0 <= i < k && !gs[i].program.negated && glob_matches(gs, i, s)
            },
    decreases k,
{
    if k > 0 {
        lemma_matching_indices(gs, s, k - 1);
        if !gs[k - 1].program.negated && glob_matches(gs, k - 1, s) {
            assert(exists|i: int| 0 <= i < k && !gs[i].program.negated && glob_matches(gs, i, s));
        }
    }
}

/// A set selects a string exactly when it lists some pattern for it; every pattern it
/// lists matches the string, and is un-negated unless every pattern of the set is negated.
pub proof fn law_set_matches_lists_matching(gs: Seq<CompiledGlob>, s: Seq<u8>)
    requires
        gs.len() <= u32::MAX,
    ensures
        selects(gs, s) == (selected_indices(gs, s).len() > 0),
        forall|j: int|
            0 <= j < selected_indices(gs, s).len() ==> {
                let i = #[trigger] selected_indices(gs, s)[j] as int;
                &&& 0 <= i < gs.len()
                &&& glob_matches(gs, i, s)
                &&& has_unnegated(gs) ==> !gs[i].program.negated
            },
{
    lemma_matching_indices(gs, s, gs.len() as int);
    if !excluded(gs, s) && !has_unnegated(gs) {
        assert forall|j: int| 0 <= j < selected_indices(gs, s).len() implies {
            let i = #[trigger] selected_indices(gs, s)[j] as int;
            &&& 0 <= i < gs.len()
            &&& glob_matches(gs, i, s)
        } by {
            assert(selected_indices(gs, s)[j] as int == j);
            assert(gs[j].program.negated);
        }
    }
}

/// The regular-expression source is anchored at both ends unless `contains` is set, and
/// its body is always one group.
pub proof fn law_re_anchored(negated: bool, nodes: Seq<SNode>, o: MatchOptions)
    ensures
        !o.contains ==> re_source(negated, nodes, o)[0] == '^' && re_source(negated, nodes, o).last()
            == '$',
        o.contains ==> re_source(negated, nodes, o).subrange(0, 3) == seq!['(', '?', ':']
            && re_source(negated, nodes, o).last() == ')',
{
    let r = re_source(negated, nodes, o);
    if o.contains {
        assert(r.subrange(0, 3) =~= seq!['(', '?', ':']);
    }
}

/// A negated pattern matches exactly the inputs its un-negated matcher rejects, basename
/// matching included.
pub proof fn law_negation_flips(p: crate::compile::Program, nodes: Seq<SNode>, has_slash: bool, o: MatchOptions, s: Seq<u8>)
    requires
        program_for(p, nodes, true, has_slash, o),
    ensures
        matches_spec(p, o, s) == !crate::matcher::unnegated_spec(p, o, s),
{
}

/// Without negation or basename matching, a program matches exactly what its matcher
/// accepts.
pub proof fn law_plain_program_uses_its_matcher(p: crate::compile::Program, nodes: Seq<SNode>, has_slash: bool, o: MatchOptions, s: Seq<u8>)
    requires
        program_for(p, nodes, false, has_slash, o),
        !o.match_base || has_slash,
    ensures
        matches_spec(p, o, s) == base_spec(p.base_matcher_fn, p, o, s),
        p.matcher_fn == p.base_matcher_fn,
{
}

/// A pattern longer than `max_length` is rejected at offset 0.
pub proof fn law_too_long_rejected(b: Seq<u8>, o: MatchOptions)
    requires
        b.len() > o.max_length,
    ensures
        pattern_spec(b, o) == PRes::<(bool, Seq<SNode>)>::Fail(PErr::TooLong, 0),
{
}

/// A byte with no meaning in a pattern (outside brace and extended-glob groups).
pub open spec fn plain_byte(c: u8) -> bool {
    !(c == 92u8 || c == 47u8 || c == 63u8 || c == 42u8 || c == 91u8 || c == 123u8 || c == 43u8
        || c == 64u8 || c == 33u8)
}

proof fn lemma_plain_seq(b: Seq<u8>, o: MatchOptions, pos: int, lit: Seq<u8>, out: Seq<SNode>)
    requires
        0 <= pos <= b.len(),
        forall|i: int| 0 <= i < b.len() ==> plain_byte(#[trigger] b[i]),
    ensures
        seq_spec(b, o, pos, Stop::Eof, lit, out) == PRes::Done(
            flush(lit + b.subrange(pos, b.len() as int), out),
            b.len() as int,
        ),
    decreases b.len() - pos,
{
    if pos < b.len() {
        assert(plain_byte(b[pos]));
        lemma_plain_seq(b, o, pos + 1, lit.push(b[pos]), out);
        assert(lit.push(b[pos]) + b.subrange(pos + 1, b.len() as int) =~= lit + b.subrange(
            pos,
            b.len() as int,
        ));
    } else {
        assert(lit + b.subrange(pos, b.len() as int) =~= lit);
    }
}

/// A pattern without glob syntax matches exactly the strings equal to it (with ASCII case
/// folded under `nocase`), when matching is neither by basename nor anywhere.
pub proof fn law_plain_pattern_matches_itself(b: Seq<u8>, o: MatchOptions, g: CompiledGlob, s: Seq<u8>)
    requires
        0 < b.len() <= o.max_length,
        b.len() <= 0xFFFF_FFFF,
        forall|i: int| 0 <= i < b.len() ==> plain_byte(#[trigger] b[i]),
        !o.contains,
        !o.match_base,
        compiled_ok(b, o, Ok(g)),
    ensures
        matches_spec(g.program, g.opts, s) == cased_eq(
            s,
            if o.nocase {
                lowered(b)
            } else {
                b
            },
            o.nocase,
        ),
        !o.nocase ==> (matches_spec(g.program, g.opts, s) <==> s == b),
{
    lemma_plain_seq(b, o, 0, Seq::empty(), Seq::empty());
    assert(Seq::<u8>::empty() + b.subrange(0, b.len() as int) =~= b);
    assert(crate::parse::bang_run(b, 0) == 0) by {
        assert(plain_byte(b[0]));
    }
    let nodes = seq![SNode::Literal(b)];
    assert(flush(b, Seq::empty()) =~= nodes);
    let e = crate::compile::emit_seq(crate::compile::no_emission(), nodes, true, o.nocase);
    assert(nodes.subrange(0, 0) =~= Seq::<SNode>::empty());
    assert(crate::compile::emit_seq(crate::compile::no_emission(), nodes.subrange(0, 0), true, o.nocase)
        == crate::compile::no_emission());
    assert(nodes.len() == 1);
    assert(nodes[0] == SNode::Literal(b));
    assert(e == crate::compile::emit_node(
        crate::compile::emit_seq(crate::compile::no_emission(), nodes.subrange(0, 0), true, o.nocase),
        nodes[0],
        true,
        o.nocase,
    ));
    assert(e == crate::compile::emit_lit(crate::compile::no_emission(), b, true, o.nocase));
    assert(!crate::parse::seq_slash(nodes.subrange(0, 0)));
    assert(!crate::parse::node_slash(nodes[0]));
    assert(!crate::parse::seq_slash(nodes));
    if o.nocase {
        assert(e.pool =~= lowered(b));
    } else {
        assert(e.pool =~= b);
        if cased_eq(s, b, false) {
            assert(s =~= b);
        }
    }
}

proof fn lemma_bang_run_shift(pre: Seq<u8>, q: Seq<u8>, i: int)
    requires
        0 <= i,
    ensures
        crate::parse::bang_run(pre + q, i + pre.len()) == crate::parse::bang_run(q, i) + pre.len(),
        crate::parse::bang_run(q, i) >= i,
    decreases q.len() - i,
{
    let b2 = pre + q;
    let d = pre.len() as int;
    if 0 <= i < q.len() {
        assert(b2[i + d] == q[i]);
        assert(crate::parse::byte_at(b2, i + 1 + d) == crate::parse::byte_at(q, i + 1));
        if q[i] == 33u8 && crate::parse::byte_at(q, i + 1) != Some(40u8) {
            lemma_bang_run_shift(pre, q, i + 1);
        }
    }
}

/// A leading `!` negates a pattern: the pattern after it parses to the same elements,
/// with the negation flipped, and a rejection moves one byte on.
pub proof fn law_bang_negates(q: Seq<u8>, o: MatchOptions)
    requires
        !o.nonegate,
        q.len() + 1 <= o.max_length,
        crate::parse::byte_at(q, 0) != Some(40u8),
    ensures
        match pattern_spec(q, o) {
            PRes::Done(v, e) => pattern_spec(seq![33u8] + q, o) == PRes::Done((!v.0, v.1), e + 1),
            PRes::Fail(k, p) => pattern_spec(seq![33u8] + q, o) == PRes::<(bool, Seq<SNode>)>::Fail(k, p + 1),
        },
{
    let pre = seq![33u8];
    let b2 = pre + q;
    lemma_bang_run_shift(pre, q, 0);
    assert(b2[0] == 33u8);
    assert(crate::parse::byte_at(b2, 1) == crate::parse::byte_at(q, 0));
    assert(crate::parse::bang_run(b2, 0) == crate::parse::bang_run(b2, 1));
    let e = crate::parse::bang_run(q, 0);
    lemma_seq_shift(pre, q, o, e, Stop::Eof, Seq::empty(), Seq::empty());
}

/// The programs compiled from a pattern and from the pattern after a leading `!` differ
/// only in their negation: same instructions, tables, shape and base matcher.
pub proof fn law_bang_negates_program(q: Seq<u8>, o: MatchOptions, g1: CompiledGlob, g2: CompiledGlob)
    requires
        !o.nonegate,
        q.len() + 1 <= o.max_length,
        crate::parse::byte_at(q, 0) != Some(40u8),
        compiled_ok(q, o, Ok(g1)),
        compiled_ok(seq![33u8] + q, o, Ok(g2)),
    ensures
        g2.program.negated == !g1.program.negated,
        g2.program.code@ == g1.program.code@,
        g2.program.pool@ == g1.program.pool@,
        crate::compile::classes_view(g2.program.classes@) == crate::compile::classes_view(g1.program.classes@),
        g2.program.alt_table@ == g1.program.alt_table@,
        g2.program.suffix_table@ == g1.program.suffix_table@,
        g2.program.ext_table@ == g1.program.ext_table@,
        g2.program.shape == g1.program.shape,
        g2.program.prefilter == g1.program.prefilter,
        g2.program.base_matcher_fn == g1.program.base_matcher_fn,
        g2.program.has_slash == g1.program.has_slash,
{
    law_bang_negates(q, o);
}

/// A pattern and the same pattern behind a leading `!` give opposite answers on every input.
pub proof fn law_bang_negates_matching(
    q: Seq<u8>,
    o: MatchOptions,
    g1: CompiledGlob,
    g2: CompiledGlob,
    s: Seq<u8>,
)
    requires
        !o.nonegate,
        q.len() + 1 <= o.max_length,
        crate::parse::byte_at(q, 0) != Some(40u8),
        compiled_ok(q, o, Ok(g1)),
        compiled_ok(seq![33u8] + q, o, Ok(g2)),
    ensures
        matches_spec(g2.program, g2.opts, s) == !matches_spec(g1.program, g1.opts, s),
{
    law_bang_negates_program(q, o, g1, g2);
    let p1 = g1.program;
    let p2 = g2.program;
    assert(same_matching(p1, p2));
    lemma_base_same(p1.base_matcher_fn, p1, p2, o, o, s);
    lemma_base_same(p1.base_matcher_fn, p1, p2, o, o, crate::matcher::basename_spec(s, o.mode));
}

/// A pattern's answers are fixed by the pattern and the options: any two compilations of it
/// match the same inputs, so the answer `is_match` gives is the one every compilation gives.
pub proof fn law_compiled_answer_is_determined(
    pat: Seq<u8>,
    o: MatchOptions,
    g1: CompiledGlob,
    g2: CompiledGlob,
    s: Seq<u8>,
)
    requires
        compiled_ok(pat, o, Ok(g1)),
        compiled_ok(pat, o, Ok(g2)),
    ensures
        matches_spec(g1.program, g1.opts, s) == matches_spec(g2.program, g2.opts, s),
{
    let p1 = g1.program;
    let p2 = g2.program;
    assert(same_matching(p1, p2));
    assert(p1.matcher_fn == p2.matcher_fn);
    lemma_base_same(p1.base_matcher_fn, p1, p2, o, o, s);
    lemma_base_same(p1.matcher_fn, p1, p2, o, o, s);
    lemma_base_same(p1.base_matcher_fn, p1, p2, o, o, crate::matcher::basename_spec(s, crate::options::Mode::Posix));
    lemma_base_same(p1.base_matcher_fn, p1, p2, o, o, crate::matcher::basename_spec(s, crate::options::Mode::Windows));
}

proof fn lemma_bang_run_range(b: Seq<u8>, i: int)
    requires
        0 <= i <= b.len(),
    ensures
        i <= crate::parse::bang_run(b, i) <= b.len(),
    decreases b.len() - i,
{
    if i < b.len() {
        lemma_bang_run_range(b, i + 1);
    }
}

/// The separator the walk of `scan` records is the one it started with or a separator it
/// passed.
proof fn lemma_walk_sep(b: Seq<u8>, o: MatchOptions, start: int, i: int, ls: int)
    requires
        0 <= i,
    ensures
        ({
            let w = walk(b, o, start, i, ls);
            w.last_sep == ls || (i <= w.last_sep < b.len() && sep_spec(o.mode, b[w.last_sep]))
        }),
    decreases b.len() + 2 - i,
{
    if 0 <= i < b.len() {
        let c = b[i];
        if c == 92u8 {
            lemma_walk_sep(b, o, start, i + 2, ls);
        } else if sep_spec(o.mode, c) {
            lemma_walk_sep(b, o, start, i + 1, i);
        } else {
            lemma_walk_sep(b, o, start, i + 1, ls);
        }
    }
}

/// `scan` loses nothing of a pattern: what follows its negating `!`s is the prefix, the
/// base, the separator between base and glob where there is one, and the glob, in order.
pub proof fn law_scan_reassembles(b: Seq<u8>, o: MatchOptions, r: ScanResult)
    requires
        scan_spec(b, o, r),
    ensures
        ({
            let rest = b.subrange(neg_end(b, o), b.len() as int);
            let pre = encode_utf8(r.prefix@);
            let bs = encode_utf8(r.base@);
            let gl = encode_utf8(r.glob@);
            ||| rest == pre + bs + gl
            ||| {
                &&& bs.len() > 0
                &&& sep_spec(o.mode, rest[(pre.len() + bs.len()) as int])
                &&& rest == pre + bs + seq![rest[(pre.len() + bs.len()) as int]] + gl
            }
        }),
        !r.is_glob ==> encode_utf8(r.glob@).len() == 0,
{
    let n = b.len() as int;
    let s0 = neg_end(b, o);
    if !o.nonegate {
        lemma_bang_run_range(b, 0);
    }
    let start = scan_start(b, o);
    let w = walk(b, o, start, start, 0);
    lemma_walk_sep(b, o, start, start, 0);
    let rest = b.subrange(s0, n);
    let pre = encode_utf8(r.prefix@);
    let bs = encode_utf8(r.base@);
    let gl = encode_utf8(r.glob@);
    assert(pre == b.subrange(s0, start));
    if w.is_glob && w.last_sep > start {
        let j = w.last_sep;
        assert(rest[(pre.len() + bs.len()) as int] == b[j]);
        assert(rest =~= pre + bs + seq![rest[(pre.len() + bs.len()) as int]] + gl);
    } else {
        assert(rest =~= pre + bs + gl);
    }
}

/// `k` bangs.
pub open spec fn bangs(k: nat) -> Seq<u8> {
    Seq::new(k, |i: int| 33u8)
}

/// A run of `k` leading `!`s negates a pattern `k` times: the pattern after them parses to
/// the same elements, negated when `k` is odd, and a rejection moves `k` bytes on.
pub proof fn law_bang_run_parity(k: nat, q: Seq<u8>, o: MatchOptions)
    requires
        !o.nonegate,
        q.len() + k <= o.max_length,
        crate::parse::byte_at(q, 0) != Some(40u8),
    ensures
        match pattern_spec(q, o) {
            PRes::Done(v, e) => pattern_spec(bangs(k) + q, o) == PRes::Done(((k % 2 == 1) != v.0, v.1), e + k),
            PRes::Fail(kk, p) => pattern_spec(bangs(k) + q, o) == PRes::<(bool, Seq<SNode>)>::Fail(kk, p + k),
        },
    decreases k,
{
    if k == 0 {
        assert(bangs(0) + q =~= q);
    } else {
        let q1 = bangs((k - 1) as nat) + q;
        law_bang_run_parity((k - 1) as nat, q, o);
        if k - 1 > 0 {
            assert(q1[0] == 33u8);
        } else {
            assert(q1 =~= q);
        }
        law_bang_negates(q1, o);
        assert(seq![33u8] + q1 =~= bangs(k) + q);
    }
}

/// Two compilations of patterns with the same elements answer alike, or oppositely when
/// exactly one of them is negated.
proof fn lemma_same_nodes_answers(
    nodes: Seq<SNode>,
    has_slash: bool,
    n1: bool,
    n2: bool,
    o: MatchOptions,
    g1: CompiledGlob,
    g2: CompiledGlob,
    s: Seq<u8>,
)
    requires
        g1.opts == o,
        g2.opts == o,
        g1.program.wf(),
        g2.program.wf(),
        program_for(g1.program, nodes, n1, has_slash, o),
        program_for(g2.program, nodes, n2, has_slash, o),
    ensures
        matches_spec(g2.program, g2.opts, s) == ((n1 != n2) != matches_spec(g1.program, g1.opts, s)),
{
    let p1 = g1.program;
    let p2 = g2.program;
    assert(same_matching(p1, p2));
    lemma_base_same(p1.base_matcher_fn, p1, p2, o, o, s);
    lemma_base_same(p1.base_matcher_fn, p1, p2, o, o, crate::matcher::basename_spec(s, o.mode));
    lemma_base_same(p1.base_matcher_fn, p1, p2, o, o, crate::matcher::basename_spec(s, crate::options::Mode::Posix));
    lemma_base_same(p1.base_matcher_fn, p1, p2, o, o, crate::matcher::basename_spec(s, crate::options::Mode::Windows));
}

/// A pattern behind a run of `k` leading `!`s answers as the pattern does when `k` is even
/// and the opposite when `k` is odd.
pub proof fn law_bang_run_matching(
    k: nat,
    q: Seq<u8>,
    o: MatchOptions,
    g0: CompiledGlob,
    gk: CompiledGlob,
    s: Seq<u8>,
)
    requires
        !o.nonegate,
        q.len() + k <= o.max_length,
        crate::parse::byte_at(q, 0) != Some(40u8),
        compiled_ok(q, o, Ok(g0)),
        compiled_ok(bangs(k) + q, o, Ok(gk)),
    ensures
        matches_spec(gk.program, gk.opts, s) == ((k % 2 == 1) != matches_spec(g0.program, g0.opts, s)),
{
    law_bang_run_parity(k, q, o);
    let v = pattern_spec(q, o)->Done_0;
    lemma_same_nodes_answers(v.1, crate::parse::seq_slash(v.1), v.0, (k % 2 == 1) != v.0, o, g0, gk, s);
}

/// Basename matching is matching the last segment: a pattern without a separator compiled
/// with `match_base` answers for a path what the same pattern compiled without it answers
/// for the path's last segment (negated or not).
pub proof fn law_match_base_matches_last_segment(
    pat: Seq<u8>,
    o: MatchOptions,
    g: CompiledGlob,
    g0: CompiledGlob,
    x: Seq<u8>,
)
    requires
        o.match_base,
        compiled_ok(pat, o, Ok(g)),
        !g.program.has_slash,
        compiled_ok(pat, MatchOptions { match_base: false, ..o }, Ok(g0)),
    ensures
        matches_spec(g.program, g.opts, x) == matches_spec(
            g0.program,
            g0.opts,
            crate::matcher::basename_spec(x, o.mode),
        ),
{
    let o0 = MatchOptions { match_base: false, ..o };
    crate::reparse::lemma_pattern_opts(pat, o, o0);
    let p = g.program;
    let p0 = g0.program;
    assert(same_matching(p, p0));
    assert(p.base_matcher_fn == p0.base_matcher_fn);
    let y = crate::matcher::basename_spec(x, o.mode);
    lemma_base_same(p.base_matcher_fn, p, p0, o, o0, y);
}

} // verus!
