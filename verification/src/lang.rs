use vstd::prelude::*;

use crate::ast::{class_set, SNode};
use crate::compile::{
    classes_view, compiled_ok, emission_fits, emit_node, emit_seq, lowered, no_emission, CompiledGlob,
    Emission, Instr, Program,
};
use crate::layout::{laid_out, lemma_emit_node, lemma_seq, lemma_top_walk, visits};
use crate::matcher::{anchored_spec, basename_spec, matches_spec};
use crate::parse::pattern_spec;
use crate::screen::{lemma_run_sees, lit_found};
use crate::options::{sep_spec, MatchOptions};
use crate::search::{cased_eq, has_sep, lemma_seg_end, occurs_at, seg_end};
use crate::util::lower_spec;
use crate::vm::{finish, globstar_case, gloop, gskip, lit_of, run, star_back, star_case, star_skip};

verus! {

// Which strings a pattern denotes, written over its elements with no reference to how it is
// matched: a literal stands for its bytes, `/` for one separator, `?` and `[..]` for one
// byte of a segment, `*` for a run of bytes of a segment, `**` for any run of bytes; the
// one-segment wildcards take a dot that starts a segment only under `dot`.

/// The bytes a literal element stands for, lower-cased under `nocase`.
pub open spec fn lit_text(b: Seq<u8>, nocase: bool) -> Seq<u8> {
    if nocase {
        lowered(b)
    } else {
        b
    }
}

/// The element kinds of a pattern with no groups, whose literals are not empty and hold no
/// separator byte.
pub open spec fn plain_node(n: SNode, o: MatchOptions) -> bool {
    match n {
        SNode::Literal(b) => b.len() > 0 && !has_sep(b, o.mode),
        SNode::Sep | SNode::AnyChar | SNode::Class(_) | SNode::Star | SNode::Globstar => true,
        _ => false,
    }
}

/// `*` or `**`.
pub open spec fn starry(n: SNode) -> bool {
    n is Star || n is Globstar
}

/// Plain elements, no two stars in a row (the parser reads a run of `*` as one element).
pub open spec fn plain_nodes(ns: Seq<SNode>, o: MatchOptions) -> bool {
    &&& forall|k: int| 0 <= k < ns.len() ==> plain_node(#[trigger] ns[k], o)
    &&& forall|k: int| 0 <= k < ns.len() - 1 && #[trigger] starry(ns[k]) ==> !starry(ns[k + 1])
}

/// A wildcard may take the byte at `i`: not a dot that starts a segment, unless `dot`.
pub open spec fn dot_ok(o: MatchOptions, s: Seq<u8>, i: int, at: bool) -> bool {
    !(at && s[i] == 46u8 && !o.dot)
}

/// A star followed by `rest` takes a non-empty run `s[i..k]` of one segment, for some
/// `k <= j`, and `rest` denotes `s[k..]`.
pub open spec fn star_some(rest: Seq<SNode>, o: MatchOptions, s: Seq<u8>, i: int, j: int) -> bool
    decreases rest.len(), j - i,
{
    if j <= i {
        false
    } else {
        (!has_sep(s.subrange(i, j), o.mode) && glob_lang(rest, o, s, j, false)) || star_some(
            rest,
            o,
            s,
            i,
            j - 1,
        )
    }
}

/// After `**` (at the start of a segment when `at`), `rest` takes `s[j..]`; when `rest`
/// starts with `/` and `j` starts a segment, the `/` may also be the last byte `**` took, or
/// `**` may take nothing at the start of the input.
pub open spec fn globstar_rest(rest: Seq<SNode>, o: MatchOptions, s: Seq<u8>, j: int, at: bool) -> bool
    decreases rest.len(), 1int,
{
    &&& rest.len() > 0
    &&& (glob_lang(rest, o, s, j, at || j == 0) || (rest[0] is Sep && (j == 0 || sep_spec(o.mode, s[j - 1]))
        && glob_lang(rest.subrange(1, rest.len() as int), o, s, j, at || j == 0)))
}

/// `**` takes `s[i..j]` for some `j` from `i` on, after which `globstar_rest` holds.
pub open spec fn globstar_from(rest: Seq<SNode>, o: MatchOptions, s: Seq<u8>, i: int, at: bool) -> bool
    decreases rest.len(), s.len() + 3 - i,
{
    if i < 0 || i > s.len() {
        false
    } else {
        globstar_rest(rest, o, s, i, at) || globstar_from(rest, o, s, i + 1, at)
    }
}

/// The elements `ns` denote exactly `s[i..]`; `at` says that `i` starts a path segment. `**`
/// takes any run of bytes.
pub open spec fn glob_lang(ns: Seq<SNode>, o: MatchOptions, s: Seq<u8>, i: int, at: bool) -> bool
    decreases ns.len(), 0int,
{
    if ns.len() == 0 {
        i == s.len()
    } else {
        let rest = ns.subrange(1, ns.len() as int);
        match ns[0] {
            SNode::Literal(b) => {
                let t = lit_text(b, o.nocase);
                &&& i + b.len() <= s.len()
                &&& cased_eq(s.subrange(i, i + b.len()), t, o.nocase)
                &&& glob_lang(rest, o, s, i + b.len(), b.len() > 0 && sep_spec(o.mode, t[b.len() - 1]))
            },
            SNode::Sep => i < s.len() && sep_spec(o.mode, s[i]) && glob_lang(rest, o, s, i + 1, true),
            SNode::AnyChar => i < s.len() && !sep_spec(o.mode, s[i]) && dot_ok(o, s, i, at)
                && glob_lang(rest, o, s, i + 1, false),
            SNode::Class(m) => i < s.len() && !sep_spec(o.mode, s[i]) && dot_ok(o, s, i, at)
                && m.contains(
                if o.nocase {
                    lower_spec(s[i])
                } else {
                    s[i]
                },
            ) && glob_lang(rest, o, s, i + 1, false),
            SNode::Star => glob_lang(rest, o, s, i, at) || (i < s.len() && dot_ok(o, s, i, at)
                && star_some(rest, o, s, i, s.len() as int)),
            SNode::Globstar => i <= s.len() && (rest.len() == 0 || globstar_from(rest, o, s, i, at)),
            _ => false,
        }
    }
}

/// The instruction `ins` of `p` stands for the element `n`.
pub open spec fn instr_for(p: Program, nocase: bool, n: SNode, ins: Instr) -> bool {
    match n {
        SNode::Literal(b) => ins matches Instr::Literal { off, len } && len == b.len() && off + len
            <= p.pool@.len() && p.pool_range(off, len) == lit_text(b, nocase),
        SNode::Sep => ins is Sep,
        SNode::AnyChar => ins is AnyChar,
        SNode::Star => ins is Star,
        SNode::Globstar => ins is Globstar,
        SNode::Class(m) => ins matches Instr::Class(idx) && idx < p.classes@.len() && class_set(
            p.classes@[idx as int],
        ) == m,
        _ => false,
    }
}

/// The code of `p` from `pc` on is the elements `ns`, one instruction each.
pub open spec fn code_is(p: Program, nocase: bool, ns: Seq<SNode>, pc: int) -> bool {
    &&& 0 <= pc
    &&& pc + ns.len() == p.code@.len()
    &&& forall|k: int| 0 <= k < ns.len() ==> instr_for(p, nocase, #[trigger] ns[k], p.code@[pc + k])
}

/// The instruction emitted for a plain element, read against an emission.
pub open spec fn emitted_for(e: Emission, nocase: bool, n: SNode, ins: Instr) -> bool {
    match n {
        SNode::Literal(b) => ins matches Instr::Literal { off, len } && len == b.len() && off + len
            <= e.pool.len() && e.pool.subrange(off as int, off + len) == lit_text(b, nocase),
        SNode::Sep => ins is Sep,
        SNode::AnyChar => ins is AnyChar,
        SNode::Star => ins is Star,
        SNode::Globstar => ins is Globstar,
        SNode::Class(m) => ins matches Instr::Class(idx) && idx < e.classes.len() && e.classes[idx as int] == m,
        _ => false,
    }
}

/// Emitting plain elements appends one instruction for each.
proof fn lemma_emit_plain(ns: Seq<SNode>, o: MatchOptions)
    requires
        plain_nodes(ns, o),
        emit_seq(no_emission(), ns, true, o.nocase).pool.len() <= u32::MAX,
        emit_seq(no_emission(), ns, true, o.nocase).classes.len() <= u32::MAX,
    ensures
        ({
            let e = emit_seq(no_emission(), ns, true, o.nocase);
            &&& e.code.len() == ns.len()
            &&& forall|k: int| 0 <= k < ns.len() ==> emitted_for(e, o.nocase, #[trigger] ns[k], e.code[k])
        }),
    decreases ns.len(),
{
    if ns.len() > 0 {
        let pre = ns.subrange(0, ns.len() - 1);
        let prev = emit_seq(no_emission(), pre, true, o.nocase);
        let n = ns[ns.len() - 1];
        let e = emit_node(prev, n, true, o.nocase);
        assert(emit_seq(no_emission(), ns, true, o.nocase) == e);
        lemma_emit_node(prev, n, true, o.nocase);
        assert forall|k: int| 0 <= k < pre.len() implies plain_node(#[trigger] pre[k], o) by {
            assert(pre[k] == ns[k]);
        }
        assert(plain_node(ns[ns.len() - 1], o));
        lemma_emit_plain(pre, o);
        assert forall|k: int| 0 <= k < ns.len() implies emitted_for(e, o.nocase, #[trigger] ns[k], e.code[k]) by {
            if k < pre.len() {
                assert(ns[k] == pre[k]);
                assert(emitted_for(prev, o.nocase, pre[k], prev.code[k]));
                assert(e.code[k] == prev.code[k]);
                if let SNode::Literal(b) = ns[k] {
                    if let Instr::Literal { off, len } = prev.code[k] {
                        assert(e.pool.subrange(off as int, off + len) =~= prev.pool.subrange(off as int, off + len));
                    }
                }
                if let SNode::Class(m) = ns[k] {
                    if let Instr::Class(idx) = prev.code[k] {
                        assert(e.classes[idx as int] == prev.classes[idx as int]);
                    }
                }
            } else {
                if let SNode::Literal(b) = n {
                    let t = lit_text(b, o.nocase);
                    assert(t.len() == b.len());
                    assert(e.pool.subrange(prev.pool.len() as int, (prev.pool.len() + b.len()) as int) =~= t);
                }
            }
        }
    }
}

proof fn lemma_code_rest(p: Program, nocase: bool, ns: Seq<SNode>, pc: int)
    requires
        code_is(p, nocase, ns, pc),
        ns.len() > 0,
    ensures
        code_is(p, nocase, ns.subrange(1, ns.len() as int), pc + 1),
        instr_for(p, nocase, ns[0], p.code@[pc]),
{
    let rest = ns.subrange(1, ns.len() as int);
    assert(instr_for(p, nocase, ns[0], p.code@[pc + 0]));
    assert forall|k: int| 0 <= k < rest.len() implies instr_for(p, nocase, #[trigger] rest[k], p.code@[pc + 1 + k]) by {
        assert(rest[k] == ns[k + 1]);
        assert(instr_for(p, nocase, ns[k + 1], p.code@[pc + (k + 1)]));
    }
}

proof fn lemma_rest_plain(ns: Seq<SNode>, o: MatchOptions)
    requires
        plain_nodes(ns, o),
        ns.len() > 0,
    ensures
        plain_nodes(ns.subrange(1, ns.len() as int), o),
        plain_node(ns[0], o),
{
    let rest = ns.subrange(1, ns.len() as int);
    assert forall|k: int| 0 <= k < rest.len() implies plain_node(#[trigger] rest[k], o) by {
        assert(rest[k] == ns[k + 1]);
    }
    assert forall|k: int| 0 <= k < rest.len() - 1 && #[trigger] starry(rest[k]) implies !starry(rest[k + 1]) by {
        assert(rest[k] == ns[k + 1]);
        assert(rest[k + 1] == ns[(k + 1) + 1]);
    }
}

/// `star_some` holds exactly when some `k` in `i + 1 ..= j` takes a run without separators
/// after which `rest` denotes the remainder.
pub(crate) proof fn lemma_star_some(rest: Seq<SNode>, o: MatchOptions, s: Seq<u8>, i: int, j: int)
    ensures
        star_some(rest, o, s, i, j) == exists|k: int|
            i < k <= j && !has_sep(s.subrange(i, k), o.mode) && #[trigger] glob_lang(rest, o, s, k, false),
    decreases j - i,
{
    if j > i {
        lemma_star_some(rest, o, s, i, j - 1);
        if !has_sep(s.subrange(i, j), o.mode) && glob_lang(rest, o, s, j, false) {
            assert(i < j <= j && !has_sep(s.subrange(i, j), o.mode) && glob_lang(rest, o, s, j, false));
        } else if star_some(rest, o, s, i, j - 1) {
            let k = choose|k: int|
                i < k <= j - 1 && !has_sep(s.subrange(i, k), o.mode) && #[trigger] glob_lang(rest, o, s, k, false);
            assert(i < k <= j && !has_sep(s.subrange(i, k), o.mode) && glob_lang(rest, o, s, k, false));
        }
        if exists|k: int|
            i < k <= j && !has_sep(s.subrange(i, k), o.mode) && #[trigger] glob_lang(rest, o, s, k, false) {
            let k = choose|k: int|
                i < k <= j && !has_sep(s.subrange(i, k), o.mode) && #[trigger] glob_lang(rest, o, s, k, false);
            if k < j {
                assert(i < k <= j - 1 && !has_sep(s.subrange(i, k), o.mode) && glob_lang(rest, o, s, k, false));
            }
        }
    }
}

/// Where `i` starts no dotted segment, whether it starts a segment does not matter to
/// elements that do not start with a star.
proof fn lemma_lang_at(ns: Seq<SNode>, o: MatchOptions, s: Seq<u8>, i: int)
    requires
        0 <= i <= s.len(),
        i == s.len() || s[i] != 46u8 || o.dot,
        ns.len() > 0 ==> !starry(ns[0]),
    ensures
        glob_lang(ns, o, s, i, true) == glob_lang(ns, o, s, i, false),
{
    if ns.len() > 0 && i < s.len() {
        assert(dot_ok(o, s, i, true) == dot_ok(o, s, i, false));
    }
}

/// `s[i..j]` holds no separator exactly when it stays in the segment that `i` is in.
proof fn lemma_no_sep_upto(s: Seq<u8>, o: MatchOptions, i: int, j: int)
    requires
        0 <= i <= j <= s.len(),
    ensures
        !has_sep(s.subrange(i, j), o.mode) == (j <= seg_end(s, o.mode, i)),
{
    lemma_seg_end(s, o.mode, i);
    let se = seg_end(s, o.mode, i);
    let t = s.subrange(i, j);
    if j <= se {
        assert forall|k: int| 0 <= k < t.len() implies !sep_spec(o.mode, #[trigger] t[k]) by {
            assert(t[k] == s[i + k]);
        }
    } else {
        assert(t[se - i] == s[se]);
        assert(sep_spec(o.mode, t[se - i]));
    }
}

/// The run of `pc ..` that the star's search tries at `j` succeeds only where its literal
/// lies inside the segment.
proof fn lemma_lit_inside(p: Program, o: MatchOptions, s: Seq<u8>, ns: Seq<SNode>, pc: int, i: int, j: int)
    requires
        code_is(p, o.nocase, ns, pc),
        ns.len() > 0,
        plain_nodes(ns, o),
        ns[0] is Literal,
        0 <= i <= j <= seg_end(s, o.mode, i),
        run(p, o, s, pc, j, p.code@.len() as int, false) is Some,
    ensures
        occurs_at(
            s.subrange(i, seg_end(s, o.mode, i)),
            lit_of(p, pc)->0,
            j - i,
            o.nocase,
        ),
{
    lemma_code_rest(p, o.nocase, ns, pc);
    lemma_seg_end(s, o.mode, i);
    let se = seg_end(s, o.mode, i);
    let b = ns[0]->Literal_0;
    let need = lit_of(p, pc)->0;
    let t = lit_text(b, o.nocase);
    assert(need == t);
    assert(j + b.len() <= s.len());
    assert(cased_eq(s.subrange(j, j + b.len()), t, o.nocase));
    assert(plain_node(ns[0], o));
    if j + b.len() > se {
        let k = se - j;
        assert(s.subrange(j, j + b.len())[k] == s[se]);
        assert(sep_spec(o.mode, s[se]));
        assert(!sep_spec(o.mode, b[k]));
        if o.nocase {
            assert(t[k] == lower_spec(b[k]));
        }
        assert(false);
    }
    let hay = s.subrange(i, se);
    assert(hay.subrange(j - i, j - i + b.len()) =~= s.subrange(j, j + b.len()));
}

/// The star's search over literal positions finds a run exactly when some position of the
/// segment from `i + k` on has one.
proof fn lemma_star_skip_lang(
    p: Program,
    o: MatchOptions,
    s: Seq<u8>,
    ns: Seq<SNode>,
    pc: int,
    i: int,
    need: Seq<u8>,
    k: int,
)
    requires
        !o.contains,
        code_is(p, o.nocase, ns, pc + 1),
        ns.len() > 0,
        plain_nodes(ns, o),
        ns[0] is Literal,
        need == lit_of(p, pc + 1)->0,
        0 <= pc,
        0 <= i <= s.len(),
        0 <= k,
        forall|j: int| #![trigger run(p, o, s, pc + 1, j, p.code@.len() as int, false)]
            0 <= j <= s.len() ==> run(p, o, s, pc + 1, j, p.code@.len() as int, false) == (if glob_lang(
                ns,
                o,
                s,
                j,
                false,
            ) {
                Some(s.len() as int)
            } else {
                None
            }),
    ensures
        star_skip(p, o, s, pc, i, p.code@.len() as int, need, k) == (if exists|j: int|
            i + k <= j <= seg_end(s, o.mode, i) && #[trigger] glob_lang(ns, o, s, j, false) {
            Some(s.len() as int)
        } else {
            None
        }),
    decreases seg_end(s, o.mode, i) - i + 1 - k,
{
    let n = p.code@.len() as int;
    let se = seg_end(s, o.mode, i);
    lemma_seg_end(s, o.mode, i);
    if k > se - i {
    } else {
        lemma_star_skip_lang(p, o, s, ns, pc, i, need, k + 1);
        let hay = s.subrange(i, se);
        let j = i + k;
        if glob_lang(ns, o, s, j, false) {
            assert(run(p, o, s, pc + 1, j, n, false) is Some);
            lemma_lit_inside(p, o, s, ns, pc + 1, i, j);
        }
        if exists|j2: int| i + k <= j2 <= se && #[trigger] glob_lang(ns, o, s, j2, false) {
            let j2 = choose|j2: int| i + k <= j2 <= se && #[trigger] glob_lang(ns, o, s, j2, false);
            if j2 != j {
                assert(i + k + 1 <= j2 <= se && glob_lang(ns, o, s, j2, false));
            }
        }
    }
}

/// The star's backward search finds a run exactly when some position of `i ..= probe` has one.
proof fn lemma_star_back_lang(
    p: Program,
    o: MatchOptions,
    s: Seq<u8>,
    ns: Seq<SNode>,
    pc: int,
    i: int,
    probe: int,
)
    requires
        !o.contains,
        0 <= pc < p.code@.len(),
        0 <= i,
        probe <= s.len(),
        forall|j: int| #![trigger run(p, o, s, pc + 1, j, p.code@.len() as int, false)]
            0 <= j <= s.len() ==> run(p, o, s, pc + 1, j, p.code@.len() as int, false) == (if glob_lang(
                ns,
                o,
                s,
                j,
                false,
            ) {
                Some(s.len() as int)
            } else {
                None
            }),
    ensures
        star_back(p, o, s, pc, i, p.code@.len() as int, probe) == (if exists|j: int|
            i <= j <= probe && #[trigger] glob_lang(ns, o, s, j, false) {
            Some(s.len() as int)
        } else {
            None
        }),
    decreases probe - i,
{
    let n = p.code@.len() as int;
    if probe < i {
    } else {
        assert(run(p, o, s, pc + 1, probe, n, false) == (if glob_lang(ns, o, s, probe, false) {
            Some(s.len() as int)
        } else {
            None
        }));
        if probe != i {
            lemma_star_back_lang(p, o, s, ns, pc, i, probe - 1);
        }
        if exists|j: int| i <= j <= probe && #[trigger] glob_lang(ns, o, s, j, false) {
            let j = choose|j: int| i <= j <= probe && #[trigger] glob_lang(ns, o, s, j, false);
            if j != probe {
                assert(i <= j <= probe - 1 && glob_lang(ns, o, s, j, false));
            }
        }
    }
}

/// The matcher run on the code of plain elements, anchored at the end of the input,
/// succeeds exactly on the strings the elements denote.
pub proof fn lemma_run_lang(p: Program, o: MatchOptions, s: Seq<u8>, ns: Seq<SNode>, pc: int, i: int, at: bool)
    requires
        !o.contains,
        p.wf(),
        code_is(p, o.nocase, ns, pc),
        plain_nodes(ns, o),
        0 <= i <= s.len(),
    ensures
        run(p, o, s, pc, i, p.code@.len() as int, at) == (if glob_lang(ns, o, s, i, at) {
            Some(s.len() as int)
        } else {
            None
        }),
    decreases ns.len(), 1int,
{
    let n = p.code@.len() as int;
    if ns.len() == 0 {
        assert(finish(p, o, s, i, n) == run(p, o, s, pc, i, n, at));
    } else {
        let rest = ns.subrange(1, ns.len() as int);
        lemma_code_rest(p, o.nocase, ns, pc);
        lemma_rest_plain(ns, o);
        match ns[0] {
            SNode::Literal(b) => {
                let t = lit_text(b, o.nocase);
                if i + b.len() <= s.len() {
                    lemma_run_lang(p, o, s, rest, pc + 1, i + b.len(), b.len() > 0 && sep_spec(o.mode, t[b.len() - 1]));
                }
            },
            SNode::Sep => {
                if i < s.len() {
                    lemma_run_lang(p, o, s, rest, pc + 1, i + 1, true);
                }
            },
            SNode::AnyChar => {
                if i < s.len() {
                    lemma_run_lang(p, o, s, rest, pc + 1, i + 1, false);
                }
            },
            SNode::Class(m) => {
                if i < s.len() {
                    let x = if o.nocase {
                        lower_spec(s[i])
                    } else {
                        s[i]
                    };
                    let idx = p.code@[pc]->Class_0;
                    assert(class_set(p.classes@[idx as int]).contains(x) == p.classes@[idx as int].has(x));
                    lemma_run_lang(p, o, s, rest, pc + 1, i + 1, false);
                }
            },
            SNode::Star => {
                lemma_star_lang(p, o, s, ns, pc, i, at);
            },
            SNode::Globstar => {
                lemma_globstar_lang(p, o, s, ns, pc, i, at);
            },
            _ => {},
        }
    }
}

proof fn lemma_star_lang(p: Program, o: MatchOptions, s: Seq<u8>, ns: Seq<SNode>, pc: int, i: int, at: bool)
    requires
        !o.contains,
        p.wf(),
        code_is(p, o.nocase, ns, pc),
        plain_nodes(ns, o),
        ns.len() > 0,
        ns[0] is Star,
        0 <= i <= s.len(),
    ensures
        run(p, o, s, pc, i, p.code@.len() as int, at) == (if glob_lang(ns, o, s, i, at) {
            Some(s.len() as int)
        } else {
            None
        }),
    decreases ns.len(), 0int,
{
    let n = p.code@.len() as int;
    let rest = ns.subrange(1, ns.len() as int);
    lemma_code_rest(p, o.nocase, ns, pc);
    lemma_rest_plain(ns, o);
    lemma_seg_end(s, o.mode, i);
    let se = seg_end(s, o.mode, i);
    assert forall|j: int| #![trigger run(p, o, s, pc + 1, j, n, false)]
        0 <= j <= s.len() implies run(p, o, s, pc + 1, j, n, false) == (if glob_lang(rest, o, s, j, false) {
            Some(s.len() as int)
        } else {
            None
        }) by {
        lemma_run_lang(p, o, s, rest, pc + 1, j, false);
    }
    assert(run(p, o, s, pc, i, n, at) == star_case(p, o, s, pc, i, n, at));
    let lang = glob_lang(ns, o, s, i, at);
    lemma_star_some(rest, o, s, i, s.len() as int);
    assert(lang == (glob_lang(rest, o, s, i, at) || (i < s.len() && dot_ok(o, s, i, at) && exists|j: int|
        i < j <= s.len() && !has_sep(s.subrange(i, j), o.mode) && #[trigger] glob_lang(rest, o, s, j, false))));
    if at && i < s.len() && s[i] == 46u8 && !o.dot {
        lemma_run_lang(p, o, s, rest, pc + 1, i, at);
        assert(!dot_ok(o, s, i, at));
    } else {
        if at {
            if rest.len() > 0 {
                assert(starry(ns[0]));
                assert(rest[0] == ns[1]);
            }
            lemma_lang_at(rest, o, s, i);
        }
        // the star may take any `j` in `i ..= se`
        assert(lang == exists|j: int| i <= j <= se && #[trigger] glob_lang(rest, o, s, j, false)) by {
            if glob_lang(rest, o, s, i, at) {
                assert(glob_lang(rest, o, s, i, false));
            } else if lang {
                let j = choose|j: int|
                    i < j <= s.len() && !has_sep(s.subrange(i, j), o.mode) && #[trigger] glob_lang(rest, o, s, j, false);
                lemma_no_sep_upto(s, o, i, j);
            }
            if exists|j: int| i <= j <= se && #[trigger] glob_lang(rest, o, s, j, false) {
                let j = choose|j: int| i <= j <= se && #[trigger] glob_lang(rest, o, s, j, false);
                lemma_no_sep_upto(s, o, i, j);
                if j > i {
                    assert(dot_ok(o, s, i, at));
                    assert(i < j <= s.len() && !has_sep(s.subrange(i, j), o.mode) && glob_lang(rest, o, s, j, false));
                }
            }
        }
        if pc + 1 >= n {
            assert(rest.len() == 0);
            if lang {
                let j = choose|j: int| i <= j <= se && #[trigger] glob_lang(rest, o, s, j, false);
                assert(j == s.len());
            }
            if se == s.len() {
                assert(glob_lang(rest, o, s, se, false));
            }
        } else {
            assert(rest.len() > 0);
            assert(instr_for(p, o.nocase, rest[0], p.code@[pc + 1 + 0]));
            match lit_of(p, pc + 1) {
                Some(need) => {
                    assert(rest[0] is Literal);
                    lemma_star_skip_lang(p, o, s, rest, pc, i, need, 0);
                },
                None => {
                    lemma_star_back_lang(p, o, s, rest, pc, i, se);
                },
            }
        }
    }
}

/// The general matcher on a compiled pattern without groups accepts exactly what the
/// pattern denotes.
proof fn lemma_anchored_lang(pat: Seq<u8>, o: MatchOptions, g: CompiledGlob, s: Seq<u8>)
    requires
        compiled_ok(pat, o, Ok(g)),
        !o.contains,
        pattern_spec(pat, o) is Done,
        plain_nodes(pattern_spec(pat, o)->Done_0.1, o),
    ensures
        anchored_spec(g.program, g.opts, s) == glob_lang(pattern_spec(pat, o)->Done_0.1, o, s, 0, true),
{
    let nodes = pattern_spec(pat, o)->Done_0.1;
    let nc = o.nocase;
    let e = emit_seq(no_emission(), nodes, true, nc);
    let p = g.program;
    let n = p.code@.len() as int;
    assert(emission_fits(e));
    lemma_emit_plain(nodes, o);
    if nodes.len() > 3 {
        assert(emitted_for(e, nc, nodes[3], e.code[3]));
        assert(plain_node(nodes[3], o));
    }
    if nodes.len() > 4 {
        assert(emitted_for(e, nc, nodes[4], e.code[4]));
        assert(plain_node(nodes[4], o));
    }
    assert(p.pool@ == e.pool);
    assert forall|k: int| 0 <= k < nodes.len() implies instr_for(p, nc, #[trigger] nodes[k], p.code@[0 + k]) by {
        assert(emitted_for(e, nc, nodes[k], e.code[k]));
        assert(plain_node(nodes[k], o));
        if let Instr::Class(idx) = e.code[k] {
            assert(classes_view(p.classes@)[idx as int] == e.classes[idx as int]);
        }
    }
    assert(code_is(p, nc, nodes, 0));
    lemma_run_lang(p, o, s, nodes, 0, 0, true);
    lemma_seq(no_emission(), nodes, true, nc);
    assert(laid_out(no_emission()));
    assert(laid_out(e));
    if glob_lang(nodes, o, s, 0, true) {
        lemma_top_walk(no_emission(), nodes, nc);
        if let Some(pf) = p.prefilter {
            if pf.1 >= 2 {
                let x = choose|x: int| visits(e.code, 0, e.code.len() as int, x) && e.code[x] == (Instr::Literal {
                    off: pf.0,
                    len: pf.1,
                });
                lemma_run_sees(p, o, s, 0, 0, n, true, x);
                assert(lit_found(p, s, x, o.nocase));
            }
        }
    }
}

/// For a pattern with no groups whose literals are not empty and hold no separator byte
/// (`**` included): the general matcher accepts exactly the strings the pattern denotes, and
/// so does `matches`, up to the pattern's negation and fast paths included, on the string or,
/// where basename matching applies, on its last segment.
pub proof fn law_matcher_decides_glob_lang(pat: Seq<u8>, o: MatchOptions, g: CompiledGlob, s: Seq<u8>)
    requires
        compiled_ok(pat, o, Ok(g)),
        !o.contains,
        pattern_spec(pat, o) is Done,
        plain_nodes(pattern_spec(pat, o)->Done_0.1, o),
    ensures
        anchored_spec(g.program, g.opts, s) == glob_lang(pattern_spec(pat, o)->Done_0.1, o, s, 0, true),
        matches_spec(g.program, g.opts, s) == (g.program.negated != glob_lang(
            pattern_spec(pat, o)->Done_0.1,
            o,
            if o.match_base && !g.program.has_slash {
                basename_spec(s, o.mode)
            } else {
                s
            },
            0,
            true,
        )),
{
    let y = if o.match_base && !g.program.has_slash {
        basename_spec(s, o.mode)
    } else {
        s
    };
    lemma_anchored_lang(pat, o, g, s);
    lemma_anchored_lang(pat, o, g, y);
    crate::agree::law_fast_paths_agree(pat, o, g, y);
}

/// `globstar_from` holds exactly when `globstar_rest` holds at some index from `i` on.
proof fn lemma_globstar_from(rest: Seq<SNode>, o: MatchOptions, s: Seq<u8>, i: int, at: bool)
    requires
        0 <= i,
    ensures
        globstar_from(rest, o, s, i, at) == exists|j: int| i <= j <= s.len() && #[trigger] globstar_rest(rest, o, s, j, at),
    decreases s.len() + 1 - i,
{
    if i <= s.len() {
        lemma_globstar_from(rest, o, s, i + 1, at);
        if exists|j: int| i <= j <= s.len() && #[trigger] globstar_rest(rest, o, s, j, at) {
            let j = choose|j: int| i <= j <= s.len() && #[trigger] globstar_rest(rest, o, s, j, at);
            if j != i {
                assert(i + 1 <= j <= s.len() && globstar_rest(rest, o, s, j, at));
            }
        }
        if exists|j: int| i + 1 <= j <= s.len() && #[trigger] globstar_rest(rest, o, s, j, at) {
            let j = choose|j: int| i + 1 <= j <= s.len() && #[trigger] globstar_rest(rest, o, s, j, at);
            assert(i <= j <= s.len() && globstar_rest(rest, o, s, j, at));
        }
        if globstar_rest(rest, o, s, i, at) {
            assert(i <= i <= s.len() && globstar_rest(rest, o, s, i, at));
        }
    }
}

/// What the elements after `**` denote from `j`, which starts a segment when `**` did, or
/// when `j` is the start of the input.
pub open spec fn lang_from(rest: Seq<SNode>, o: MatchOptions, s: Seq<u8>, j: int, at: bool) -> bool {
    glob_lang(rest, o, s, j, at || j == 0)
}

/// The run of the code from `pc` on decides `ns` from every index and segment flag.
pub open spec fn run_is_lang(p: Program, o: MatchOptions, s: Seq<u8>, ns: Seq<SNode>, pc: int) -> bool {
    forall|j: int, a: bool|
        0 <= j <= s.len() ==> #[trigger] run(p, o, s, pc, j, p.code@.len() as int, a) == (if glob_lang(
            ns,
            o,
            s,
            j,
            a,
        ) {
            Some(s.len() as int)
        } else {
            None
        })
}

/// Elements that start with a literal denote a stretch that starts with its text.
proof fn lemma_lit_first(p: Program, o: MatchOptions, s: Seq<u8>, ns: Seq<SNode>, pc: int, i: int, j: int, a: bool)
    requires
        code_is(p, o.nocase, ns, pc),
        ns.len() > 0,
        ns[0] is Literal,
        0 <= i <= j,
        glob_lang(ns, o, s, j, a),
    ensures
        occurs_at(s.subrange(i, s.len() as int), lit_of(p, pc)->0, j - i, o.nocase),
        forall|a2: bool| glob_lang(ns, o, s, j, a2),
{
    lemma_code_rest(p, o.nocase, ns, pc);
    let b = ns[0]->Literal_0;
    let hay = s.subrange(i, s.len() as int);
    assert(lit_of(p, pc)->0 == lit_text(b, o.nocase));
    assert(hay.subrange(j - i, j - i + b.len()) =~= s.subrange(j, j + b.len()));
}

/// Some index `j` from `lo` on (after a separator or at the start, when `lead`) from which
/// the elements after `**` denote the rest of the input.
pub open spec fn gskip_hit(rest: Seq<SNode>, o: MatchOptions, s: Seq<u8>, lo: int, lead: bool, at: bool) -> bool {
    exists|j: int|
        lo <= j <= s.len() && (!lead || j == 0 || sep_spec(o.mode, s[j - 1])) && #[trigger] lang_from(rest, o, s, j, at)
}

/// `**` followed by a literal tries each index from `i + k` on where the literal occurs.
proof fn lemma_gskip_lang(
    p: Program,
    o: MatchOptions,
    s: Seq<u8>,
    rest: Seq<SNode>,
    pc: int,
    i: int,
    need: Seq<u8>,
    lead: bool,
    at: bool,
    k: int,
)
    requires
        !o.contains,
        0 <= pc,
        code_is(p, o.nocase, rest, if lead { pc + 2 } else { pc + 1 }),
        rest.len() > 0,
        rest[0] is Literal,
        need == lit_of(p, if lead { pc + 2 } else { pc + 1 })->0,
        0 <= i <= s.len(),
        0 <= k,
        run_is_lang(p, o, s, rest, if lead { pc + 2 } else { pc + 1 }),
    ensures
        gskip(p, o, s, pc, i, p.code@.len() as int, need, lead, at, k) == (if gskip_hit(rest, o, s, i + k, lead, at) {
            Some(s.len() as int)
        } else {
            None
        }),
    decreases s.len() - i + 1 - k,
{
    let n = p.code@.len() as int;
    let c = if lead { pc + 2 } else { pc + 1 };
    let ex = gskip_hit(rest, o, s, i + k, lead, at);
    if k > s.len() - i {
        assert(gskip(p, o, s, pc, i, n, need, lead, at, k) is None);
        assert(!ex);
    } else {
        lemma_gskip_lang(p, o, s, rest, pc, i, need, lead, at, k + 1);
        let j = i + k;
        assert(run(p, o, s, c, j, n, at || j == 0) == (if glob_lang(rest, o, s, j, at || j == 0) {
            Some(s.len() as int)
        } else {
            None
        }));
        let hay = s.subrange(i, s.len() as int);
        let cond = !lead || j == 0 || sep_spec(o.mode, s[j - 1]);
        if glob_lang(rest, o, s, j, at || j == 0) {
            lemma_lit_first(p, o, s, rest, c, i, j, at || j == 0);
            assert(occurs_at(hay, need, k, o.nocase));
            if cond {
                assert(gskip(p, o, s, pc, i, n, need, lead, at, k) == Some(s.len() as int));
                assert(lang_from(rest, o, s, j, at));
                assert(ex);
            } else {
                assert(gskip(p, o, s, pc, i, n, need, lead, at, k) == gskip(p, o, s, pc, i, n, need, lead, at, k + 1));
            }
        } else {
            assert(gskip(p, o, s, pc, i, n, need, lead, at, k) == gskip(p, o, s, pc, i, n, need, lead, at, k + 1));
        }
        if exists|j2: int|
            i + k <= j2 <= s.len() && (!lead || j2 == 0 || sep_spec(o.mode, s[j2 - 1]))
                && #[trigger] lang_from(rest, o, s, j2, at) {
            let j2 = choose|j2: int|
                i + k <= j2 <= s.len() && (!lead || j2 == 0 || sep_spec(o.mode, s[j2 - 1]))
                    && #[trigger] lang_from(rest, o, s, j2, at);
            if j2 != j {
                assert(i + k + 1 <= j2 <= s.len() && (!lead || j2 == 0 || sep_spec(o.mode, s[j2 - 1]))
                    && lang_from(rest, o, s, j2, at));
            }
        }
        if exists|j2: int|
            i + k + 1 <= j2 <= s.len() && (!lead || j2 == 0 || sep_spec(o.mode, s[j2 - 1]))
                && #[trigger] lang_from(rest, o, s, j2, at) {
            let j2 = choose|j2: int|
                i + k + 1 <= j2 <= s.len() && (!lead || j2 == 0 || sep_spec(o.mode, s[j2 - 1]))
                    && #[trigger] lang_from(rest, o, s, j2, at);
            assert(i + k <= j2 <= s.len() && (!lead || j2 == 0 || sep_spec(o.mode, s[j2 - 1]))
                && lang_from(rest, o, s, j2, at));
        }
        assert(gskip(p, o, s, pc, i, n, need, lead, at, k) == (if ex {
            Some(s.len() as int)
        } else {
            None
        }));
    }
}

/// `**` followed by anything else tries every index from `probe` on.
proof fn lemma_gloop_lang(p: Program, o: MatchOptions, s: Seq<u8>, rest: Seq<SNode>, pc: int, i: int, at: bool, probe: int)
    requires
        !o.contains,
        0 <= pc,
        code_is(p, o.nocase, rest, pc + 1),
        rest.len() > 0,
        0 <= i <= probe,
        probe <= s.len() + 1,
        run_is_lang(p, o, s, rest, pc + 1),
        rest[0] is Sep ==> run_is_lang(p, o, s, rest.subrange(1, rest.len() as int), pc + 2),
    ensures
        gloop(p, o, s, pc, i, p.code@.len() as int, at, probe) == (if exists|j: int|
            probe <= j <= s.len() && #[trigger] globstar_rest(rest, o, s, j, at) {
            Some(s.len() as int)
        } else {
            None
        }),
    decreases s.len() + 1 - probe,
{
    let n = p.code@.len() as int;
    if probe > s.len() {
    } else {
        assert(instr_for(p, o.nocase, rest[0], p.code@[pc + 1 + 0]));
        let a2 = at || probe == 0;
        assert(run(p, o, s, pc + 1, probe, n, a2) == (if glob_lang(rest, o, s, probe, a2) {
            Some(s.len() as int)
        } else {
            None
        }));
        if rest[0] is Sep {
            assert(run(p, o, s, pc + 2, probe, n, a2) == (if glob_lang(rest.subrange(1, rest.len() as int), o, s, probe, a2) {
                Some(s.len() as int)
            } else {
                None
            }));
        }
        if probe < s.len() {
            lemma_gloop_lang(p, o, s, rest, pc, i, at, probe + 1);
        } else {
            assert(gloop(p, o, s, pc, i, n, at, probe + 1) is None);
        }
        let ex = exists|j: int| probe <= j <= s.len() && #[trigger] globstar_rest(rest, o, s, j, at);
        if globstar_rest(rest, o, s, probe, at) {
            assert(gloop(p, o, s, pc, i, n, at, probe) == Some(s.len() as int));
            assert(ex);
        } else {
            assert(gloop(p, o, s, pc, i, n, at, probe) == if probe >= s.len() {
                None
            } else {
                gloop(p, o, s, pc, i, n, at, probe + 1)
            });
        }
        if exists|j: int| probe <= j <= s.len() && #[trigger] globstar_rest(rest, o, s, j, at) {
            let j = choose|j: int| probe <= j <= s.len() && #[trigger] globstar_rest(rest, o, s, j, at);
            if j != probe {
                assert(probe + 1 <= j <= s.len() && globstar_rest(rest, o, s, j, at));
            }
        }
        if exists|j: int| probe + 1 <= j <= s.len() && #[trigger] globstar_rest(rest, o, s, j, at) {
            let j = choose|j: int| probe + 1 <= j <= s.len() && #[trigger] globstar_rest(rest, o, s, j, at);
            assert(probe <= j <= s.len() && globstar_rest(rest, o, s, j, at));
        }
    }
}

/// `**` at `pc`.
proof fn lemma_globstar_lang(p: Program, o: MatchOptions, s: Seq<u8>, ns: Seq<SNode>, pc: int, i: int, at: bool)
    requires
        !o.contains,
        p.wf(),
        code_is(p, o.nocase, ns, pc),
        plain_nodes(ns, o),
        ns.len() > 0,
        ns[0] is Globstar,
        0 <= i <= s.len(),
    ensures
        run(p, o, s, pc, i, p.code@.len() as int, at) == (if glob_lang(ns, o, s, i, at) {
            Some(s.len() as int)
        } else {
            None
        }),
    decreases ns.len(), 0int,
{
    let n = p.code@.len() as int;
    let rest = ns.subrange(1, ns.len() as int);
    lemma_code_rest(p, o.nocase, ns, pc);
    lemma_rest_plain(ns, o);
    assert(run(p, o, s, pc, i, n, at) == globstar_case(p, o, s, pc, i, n, at));
    if rest.len() == 0 {
        assert(pc + 1 == n);
        assert(globstar_case(p, o, s, pc, i, n, at) == Some(s.len() as int));
        assert(glob_lang(ns, o, s, i, at));
    } else {
        assert forall|j: int, a: bool| 0 <= j <= s.len() implies #[trigger] run(p, o, s, pc + 1, j, n, a) == (if glob_lang(
            rest,
            o,
            s,
            j,
            a,
        ) {
            Some(s.len() as int)
        } else {
            None
        }) by {
            lemma_run_lang(p, o, s, rest, pc + 1, j, a);
        }
        assert(instr_for(p, o.nocase, rest[0], p.code@[pc + 1 + 0]));
        let rest1 = rest.subrange(1, rest.len() as int);
        if rest[0] is Sep {
            lemma_code_rest(p, o.nocase, rest, pc + 1);
            lemma_rest_plain(rest, o);
            assert forall|j: int, a: bool| 0 <= j <= s.len() implies #[trigger] run(p, o, s, pc + 2, j, n, a) == (if glob_lang(
                rest1,
                o,
                s,
                j,
                a,
            ) {
                Some(s.len() as int)
            } else {
                None
            }) by {
                lemma_run_lang(p, o, s, rest1, pc + 2, j, a);
            }
        }
        let lang = exists|j: int| i <= j <= s.len() && #[trigger] globstar_rest(rest, o, s, j, at);
        lemma_globstar_from(rest, o, s, i, at);
        assert(glob_lang(ns, o, s, i, at) == lang);
        match lit_of(p, pc + 1) {
            Some(need) => {
                assert(rest[0] is Literal);
                lemma_gskip_lang(p, o, s, rest, pc, i, need, false, at, 0);
                assert(globstar_case(p, o, s, pc, i, n, at) == gskip(p, o, s, pc, i, n, need, false, at, 0));
                if lang {
                    let j = choose|j: int| i <= j <= s.len() && #[trigger] globstar_rest(rest, o, s, j, at);
                    assert(lang_from(rest, o, s, j, at));
                    assert(gskip_hit(rest, o, s, i + 0, false, at));
                }
                if gskip_hit(rest, o, s, i + 0, false, at) {
                    let j = choose|j: int|
                        i + 0 <= j <= s.len() && (!false || j == 0 || sep_spec(o.mode, s[j - 1]))
                            && #[trigger] lang_from(rest, o, s, j, at);
                    assert(globstar_rest(rest, o, s, j, at));
                }
            },
            None => {
                if p.code@[pc + 1] is Sep && lit_of(p, pc + 2) is Some {
                    assert(rest1.len() > 0);
                    assert(instr_for(p, o.nocase, rest1[0], p.code@[pc + 2 + 0]));
                    assert(rest1[0] is Literal);
                    let need = lit_of(p, pc + 2)->0;
                    lemma_gskip_lang(p, o, s, rest1, pc, i, need, true, at, 0);
                    assert(globstar_case(p, o, s, pc, i, n, at) == gskip(p, o, s, pc, i, n, need, true, at, 0));
                    let lead_hit = gskip_hit(rest1, o, s, i + 0, true, at);
                    if lang {
                        let j = choose|j: int| i <= j <= s.len() && #[trigger] globstar_rest(rest, o, s, j, at);
                        if glob_lang(rest, o, s, j, at || j == 0) {
                            assert(rest[0] == SNode::Sep);
                            assert(glob_lang(rest1, o, s, j + 1, true));
                            lemma_lit_first(p, o, s, rest1, pc + 2, 0, j + 1, true);
                            assert(glob_lang(rest1, o, s, j + 1, at || j + 1 == 0));
                            assert(lang_from(rest1, o, s, j + 1, at));
                            assert(sep_spec(o.mode, s[(j + 1) - 1]));
                            assert(lead_hit);
                        } else {
                            assert(lang_from(rest1, o, s, j, at));
                            assert(lead_hit);
                        }
                    }
                    if lead_hit {
                        let j = choose|j: int|
                            i + 0 <= j <= s.len() && (!true || j == 0 || sep_spec(o.mode, s[j - 1]))
                                && #[trigger] lang_from(rest1, o, s, j, at);
                        assert(globstar_rest(rest, o, s, j, at));
                    }
                } else {
                    lemma_gloop_lang(p, o, s, rest, pc, i, at, i);
                    assert(globstar_case(p, o, s, pc, i, n, at) == gloop(p, o, s, pc, i, n, at, i));
                }
            },
        }
    }
}

} // verus!
