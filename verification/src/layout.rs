use vstd::prelude::*;

use crate::ast::SNode;
use crate::compile::{
    close_group, emission_fits, emit_branches, emit_jumping, emit_lit, emit_node,
    emit_seq, end_instr, jump_instr, open_instr, patch_jumps, push_code, Emission, Instr,
};
use crate::util::lower_spec;

verus! {

// How emission lays out the pool: literals take consecutive pool ranges in code order,
// and emission only ever adds to what is there.

/// The pool length of a literal instruction, 0 for any other.
pub open spec fn lit_len(i: Instr) -> int {
    match i {
        Instr::Literal { off, len } => len as int,
        _ => 0,
    }
}

/// The total length of the literals in `code[..k]`.
pub open spec fn litsum(code: Seq<Instr>, k: int) -> int
    decreases k,
{
    if k <= 0 {
        0
    } else {
        litsum(code, k - 1) + lit_len(code[k - 1])
    }
}

/// Each literal's pool range starts where the literals before it end, and the pool holds
/// exactly the literals.
pub open spec fn laid_out(e: Emission) -> bool {
    &&& e.pool.len() == litsum(e.code, e.code.len() as int)
    &&& forall|pc: int|
        0 <= pc < e.code.len() && (#[trigger] e.code[pc]) is Literal ==> e.code[pc]->Literal_off
            == litsum(e.code, pc)
}

/// `b` continues `a`: the code of `a` is kept and every table only grows.
pub open spec fn extends(a: Emission, b: Emission) -> bool {
    &&& b.code.len() >= a.code.len()
    &&& b.code.subrange(0, a.code.len() as int) == a.code
    &&& b.pool.len() >= a.pool.len()
    &&& b.classes.len() >= a.classes.len()
    &&& b.alts.len() >= a.alts.len()
}

/// `code` and `c2` hold the same literals at the same places in their first `k` entries.
pub open spec fn same_lits(code: Seq<Instr>, c2: Seq<Instr>, k: int) -> bool {
    forall|x: int|
        0 <= x < k ==> ((#[trigger] code[x]) is Literal) == (c2[x] is Literal) && (code[x] is Literal
            ==> code[x] == c2[x])
}

pub proof fn lemma_litsum_same(code: Seq<Instr>, c2: Seq<Instr>, k: int)
    requires
        same_lits(code, c2, k),
    ensures
        litsum(code, k) == litsum(c2, k),
    decreases k,
{
    if k > 0 {
        lemma_litsum_same(code, c2, k - 1);
        assert(code[k - 1] is Literal == c2[k - 1] is Literal);
    }
}

pub proof fn lemma_litsum_nonneg(code: Seq<Instr>, k: int)
    ensures
        litsum(code, k) >= 0,
        forall|j: int| 0 <= j <= k ==> litsum(code, j) <= litsum(code, k),
    decreases k,
{
    if k > 0 {
        lemma_litsum_nonneg(code, k - 1);
    }
}

proof fn lemma_extends_trans(a: Emission, b: Emission, c: Emission)
    requires
        extends(a, b),
        extends(b, c),
    ensures
        extends(a, c),
{
    assert(c.code.subrange(0, a.code.len() as int) =~= c.code.subrange(0, b.code.len() as int).subrange(0, a.code.len() as int));
}

proof fn lemma_patch(code: Seq<Instr>, js: Seq<int>, j: Instr)
    requires
        forall|i: int| 0 <= i < js.len() ==> 0 <= #[trigger] js[i] < code.len(),
        forall|i: int| 0 <= i < js.len() ==> !(code[#[trigger] js[i]] is Literal),
        !(j is Literal),
    ensures
        patch_jumps(code, js, j).len() == code.len(),
        same_lits(code, patch_jumps(code, js, j), code.len() as int),
        forall|x: int|
            0 <= x < code.len() && (forall|i: int| 0 <= i < js.len() ==> js[i] != x) ==> #[trigger] patch_jumps(code, js, j)[x]
                == code[x],
    decreases js.len(),
{
    if js.len() > 0 {
        let prev = js.subrange(0, js.len() - 1);
        assert forall|i: int| 0 <= i < prev.len() implies 0 <= #[trigger] prev[i] < code.len() && !(code[prev[i]] is Literal) by {
            assert(prev[i] == js[i]);
        }
        lemma_patch(code, prev, j);
        let p = patch_jumps(code, prev, j);
        assert forall|x: int|
            0 <= x < code.len() && (forall|i: int| 0 <= i < js.len() ==> js[i] != x) implies #[trigger] patch_jumps(code, js, j)[x]
                == code[x] by {
            assert forall|i: int| 0 <= i < prev.len() implies prev[i] != x by {
                assert(prev[i] == js[i]);
            }
            assert(js[js.len() - 1] != x);
        }
    }
}

/// What emitting one element, or a sequence or branches of them, does to the tables.
pub proof fn lemma_emit_node(st: Emission, n: SNode, top: bool, nc: bool)
    ensures
        extends(st, emit_node(st, n, top, nc)),
        emission_fits(emit_node(st, n, top, nc)) && laid_out(st) ==> laid_out(emit_node(st, n, top, nc)),
        !top ==> emit_node(st, n, top, nc).best == st.best,
        !(n is Literal) ==> emit_node(st, n, top, nc).best == st.best,
        !(n is Brace || n is Extglob) ==> emit_node(st, n, top, nc).code.len() == st.code.len() + 1,
    decreases n,
{
    let r = emit_node(st, n, top, nc);
    let len0 = st.code.len() as int;
    match n {
        SNode::Literal(b) => {
            assert(r.code.subrange(0, len0) =~= st.code);
            if emission_fits(r) && laid_out(st) {
                let lb = if nc { crate::compile::lowered(b) } else { b };
                assert(lb.len() == b.len());
                assert(litsum(r.code, len0) == litsum(st.code, len0)) by {
                    lemma_litsum_same(st.code, r.code, len0);
                }
                assert forall|pc: int| 0 <= pc < r.code.len() && (#[trigger] r.code[pc]) is Literal implies r.code[pc]->Literal_off == litsum(r.code, pc) by {
                    if pc < len0 {
                        lemma_litsum_same(st.code, r.code, pc);
                    }
                }
            }
        },
        SNode::Brace(brs) => {
            lemma_group(st, brs, None, nc);
        },
        SNode::Extglob(k, brs) => {
            lemma_group(st, brs, Some(k), nc);
        },
        _ => {
            assert(r.code.subrange(0, len0) =~= st.code);
            if emission_fits(r) && laid_out(st) {
                lemma_litsum_same(st.code, r.code, len0);
                assert forall|pc: int| 0 <= pc < r.code.len() && (#[trigger] r.code[pc]) is Literal implies r.code[pc]->Literal_off == litsum(r.code, pc) by {
                    lemma_litsum_same(st.code, r.code, pc);
                }
            }
        },
    }
}

/// A group: its own instructions come after the code before it, which stays as it was.
pub proof fn lemma_group(st: Emission, brs: Seq<Seq<SNode>>, kind: Option<crate::ast::ExtKind>, nc: bool)
    ensures
        ({
            let st1 = push_code(st, open_instr(kind, 0, 0, 0));
            let body = emit_branches(st1, brs, kind is Some, nc);
            let r = close_group(st, body.0, body.1, body.2, kind);
            &&& extends(st, r)
            &&& (emission_fits(r) && laid_out(st) ==> laid_out(r))
            &&& r.best == st.best
            &&& r.code.len() > st.code.len()
            &&& r.code.len() == body.0.code.len() + 1
            &&& r.code[st.code.len() as int] == open_instr(
                kind,
                body.0.alts.len() as u32,
                (body.0.alts.len() + body.2.len()) as u32,
                r.code.len() as u32,
            )
        }),
    decreases brs, 1int,
{
    let ext = kind is Some;
    let st1 = push_code(st, open_instr(kind, 0, 0, 0));
    let body = emit_branches(st1, brs, ext, nc);
    let s2 = body.0;
    let js = body.1;
    let len0 = st.code.len() as int;
    lemma_branches(st1, brs, ext, nc);
    assert(st1.code.subrange(0, len0) =~= st.code);
    assert(extends(st, st1));
    lemma_extends_trans(st, st1, s2);
    let s3 = push_code(s2, end_instr(ext));
    let e = s3.code.len() as u32;
    let c1 = s3.code.update(len0, open_instr(kind, s2.alts.len() as u32, (s2.alts.len() + body.2.len()) as u32, e));
    assert forall|i: int| 0 <= i < js.len() implies 0 <= #[trigger] js[i] < c1.len() && !(c1[js[i]] is Literal) by {
        assert(s2.code[js[i]] == st1.code.push(open_instr(kind, 0, 0, 0))[js[i]] || true);
    }
    lemma_patch(c1, js, jump_instr(ext, e));
    let r = close_group(st, s2, js, body.2, kind);
    assert(r.code[len0] == c1[len0]);
    assert(r.code.subrange(0, len0) =~= st.code) by {
        assert forall|x: int| 0 <= x < len0 implies r.code[x] == st.code[x] by {
            assert(c1[x] == s3.code[x]);
            assert(s3.code[x] == s2.code[x]);
            assert(s2.code.subrange(0, len0)[x] == st.code[x]);
        }
    }
    if emission_fits(r) && laid_out(st) {
        assert(laid_out(st1)) by {
            lemma_litsum_same(st.code, st1.code, len0);
            assert forall|pc: int| 0 <= pc < st1.code.len() && (#[trigger] st1.code[pc]) is Literal implies st1.code[pc]->Literal_off == litsum(st1.code, pc) by {
                lemma_litsum_same(st.code, st1.code, pc);
            }
        }
        assert(laid_out(s2));
        assert(same_lits(s3.code, r.code, r.code.len() as int)) by {
            assert forall|x: int| 0 <= x < r.code.len() implies ((#[trigger] s3.code[x]) is Literal) == (r.code[x] is Literal) && (s3.code[x] is Literal ==> s3.code[x] == r.code[x]) by {
                if x == len0 {
                    assert(s2.code.subrange(0, st1.code.len() as int)[len0] == st1.code[len0]);
                }
            }
        }
        assert(same_lits(s2.code, s3.code, s2.code.len() as int));
        lemma_litsum_same(s3.code, r.code, r.code.len() as int);
        lemma_litsum_same(s2.code, s3.code, s2.code.len() as int);
        assert forall|pc: int| 0 <= pc < r.code.len() && (#[trigger] r.code[pc]) is Literal implies r.code[pc]->Literal_off == litsum(r.code, pc) by {
            lemma_litsum_same(s3.code, r.code, pc);
            lemma_litsum_same(s2.code, s3.code, pc);
        }
    }
}

pub proof fn lemma_seq(st: Emission, s: Seq<SNode>, top: bool, nc: bool)
    ensures
        extends(st, emit_seq(st, s, top, nc)),
        emission_fits(emit_seq(st, s, top, nc)) && laid_out(st) ==> laid_out(emit_seq(st, s, top, nc)),
        !top ==> emit_seq(st, s, top, nc).best == st.best,
    decreases s,
{
    if s.len() > 0 {
        let prev = emit_seq(st, s.subrange(0, s.len() - 1), top, nc);
        lemma_seq(st, s.subrange(0, s.len() - 1), top, nc);
        lemma_emit_node(prev, s[s.len() - 1], top, nc);
        lemma_extends_trans(st, prev, emit_seq(st, s, top, nc));
    } else {
        assert(st.code.subrange(0, st.code.len() as int) =~= st.code);
    }
}

/// Branches each followed by a jump placeholder: the placeholders stand after the code
/// before them.
pub proof fn lemma_jumping(st: Emission, brs: Seq<Seq<SNode>>, ext: bool, nc: bool)
    ensures
        extends(st, emit_jumping(st, brs, ext, nc).0),
        emission_fits(emit_jumping(st, brs, ext, nc).0) && laid_out(st) ==> laid_out(emit_jumping(st, brs, ext, nc).0),
        emit_jumping(st, brs, ext, nc).0.best == st.best,
        forall|i: int|
            0 <= i < emit_jumping(st, brs, ext, nc).1.len() ==> st.code.len() <= #[trigger] emit_jumping(st, brs, ext, nc).1[i]
                < emit_jumping(st, brs, ext, nc).0.code.len() && !(emit_jumping(st, brs, ext, nc).0.code[emit_jumping(st, brs, ext, nc).1[i]] is Literal),
    decreases brs,
{
    if brs.len() > 0 {
        let prev = emit_jumping(st, brs.subrange(0, brs.len() - 1), ext, nc);
        lemma_jumping(st, brs.subrange(0, brs.len() - 1), ext, nc);
        let a = prev.0;
        assert(extends(prev.0, a)) by {
            assert(a.code.subrange(0, prev.0.code.len() as int) =~= prev.0.code);
        }
        let s2 = emit_seq(a, brs[brs.len() - 1], false, nc);
        lemma_seq(a, brs[brs.len() - 1], false, nc);
        let r = push_code(s2, jump_instr(ext, 0));
        assert(extends(s2, r)) by {
            assert(r.code.subrange(0, s2.code.len() as int) =~= s2.code);
        }
        lemma_extends_trans(prev.0, a, s2);
        lemma_extends_trans(prev.0, s2, r);
        lemma_extends_trans(st, prev.0, r);
        let js = prev.1.push(s2.code.len() as int);
        assert forall|i: int| 0 <= i < js.len() implies st.code.len() <= #[trigger] js[i] < r.code.len() && !(r.code[js[i]] is Literal) by {
            if i < prev.1.len() {
                assert(r.code.subrange(0, prev.0.code.len() as int)[prev.1[i]] == prev.0.code[prev.1[i]]);
            }
        }
        if emission_fits(r) && laid_out(st) {
            assert(laid_out(a)) by {
                assert(a.code == prev.0.code);
            }
            lemma_litsum_same(s2.code, r.code, s2.code.len() as int);
            assert forall|pc: int| 0 <= pc < r.code.len() && (#[trigger] r.code[pc]) is Literal implies r.code[pc]->Literal_off == litsum(r.code, pc) by {
                lemma_litsum_same(s2.code, r.code, pc);
            }
        }
    } else {
        assert(st.code.subrange(0, st.code.len() as int) =~= st.code);
    }
}

pub proof fn lemma_branches(st: Emission, brs: Seq<Seq<SNode>>, ext: bool, nc: bool)
    ensures
        extends(st, emit_branches(st, brs, ext, nc).0),
        emission_fits(emit_branches(st, brs, ext, nc).0) && laid_out(st) ==> laid_out(emit_branches(st, brs, ext, nc).0),
        emit_branches(st, brs, ext, nc).0.best == st.best,
        forall|i: int|
            0 <= i < emit_branches(st, brs, ext, nc).1.len() ==> st.code.len() <= #[trigger] emit_branches(st, brs, ext, nc).1[i]
                < emit_branches(st, brs, ext, nc).0.code.len() && !(emit_branches(st, brs, ext, nc).0.code[emit_branches(st, brs, ext, nc).1[i]] is Literal),
    decreases brs, 0int,
{
    if brs.len() > 0 {
        let prev = emit_jumping(st, brs.subrange(0, brs.len() - 1), ext, nc);
        lemma_jumping(st, brs.subrange(0, brs.len() - 1), ext, nc);
        let a = prev.0;
        assert(extends(prev.0, a)) by {
            assert(a.code.subrange(0, prev.0.code.len() as int) =~= prev.0.code);
        }
        let s2 = emit_seq(a, brs[brs.len() - 1], false, nc);
        lemma_seq(a, brs[brs.len() - 1], false, nc);
        lemma_extends_trans(prev.0, a, s2);
        lemma_extends_trans(st, prev.0, s2);
        assert forall|i: int| 0 <= i < prev.1.len() implies st.code.len() <= #[trigger] prev.1[i] < s2.code.len() && !(s2.code[prev.1[i]] is Literal) by {
            assert(s2.code.subrange(0, prev.0.code.len() as int)[prev.1[i]] == prev.0.code[prev.1[i]]);
        }
        if emission_fits(s2) && laid_out(st) {
            assert(laid_out(a)) by {
                assert(a.code == prev.0.code);
            }
        }
    } else {
        assert(st.code.subrange(0, st.code.len() as int) =~= st.code);
    }
}

/// The next top-level instruction after `pc`: past a group, or the next one.
pub open spec fn walk_step(code: Seq<Instr>, pc: int) -> int {
    match code[pc] {
        Instr::BraceOpen { alts, end } => if end > pc {
            end as int
        } else {
            pc + 1
        },
        Instr::ExtglobOpen { kind, alts, end } => if end > pc {
            end as int
        } else {
            pc + 1
        },
        _ => pc + 1,
    }
}

pub proof fn lemma_step_grows(code: Seq<Instr>, pc: int)
    ensures
        walk_step(code, pc) > pc,
{
}

/// The top-level walk from `pc` lands exactly on `to`.
pub open spec fn walks_to(code: Seq<Instr>, pc: int, to: int) -> bool
    decreases crate::vm::span(pc, to),
{
    if pc >= to {
        pc == to
    } else {
        proof {
            lemma_step_grows(code, pc);
        }
        walks_to(code, walk_step(code, pc), to)
    }
}

/// The top-level walk from `pc` to `to` passes `x`.
pub open spec fn visits(code: Seq<Instr>, pc: int, to: int, x: int) -> bool
    decreases crate::vm::span(pc, to),
{
    if pc >= to {
        false
    } else {
        proof {
            lemma_step_grows(code, pc);
        }
        pc == x || visits(code, walk_step(code, pc), to, x)
    }
}

pub proof fn lemma_visits_range(code: Seq<Instr>, pc: int, to: int, x: int)
    ensures
        visits(code, pc, to, x) ==> pc <= x < to,
    decreases crate::vm::span(pc, to),
{
    if pc < to {
        lemma_step_grows(code, pc);
        lemma_visits_range(code, walk_step(code, pc), to, x);
    }
}

proof fn lemma_walk_prefix(c1: Seq<Instr>, c2: Seq<Instr>, pc: int)
    requires
        0 <= pc,
        c2.len() >= c1.len(),
        c2.subrange(0, c1.len() as int) == c1,
        walks_to(c1, pc, c1.len() as int),
    ensures
        walks_to(c2, pc, c1.len() as int),
        forall|x: int| visits(c2, pc, c1.len() as int, x) == visits(c1, pc, c1.len() as int, x),
    decreases crate::vm::span(pc, c1.len() as int),
{
    if pc < c1.len() {
        assert(c2[pc] == c2.subrange(0, c1.len() as int)[pc]);
        assert(walk_step(c2, pc) == walk_step(c1, pc));
        lemma_step_grows(c1, pc);
        lemma_walk_prefix(c1, c2, walk_step(c1, pc));
        assert forall|x: int| visits(c2, pc, c1.len() as int, x) == visits(c1, pc, c1.len() as int, x) by {
            assert(visits(c2, walk_step(c2, pc), c1.len() as int, x) == visits(c1, walk_step(c1, pc), c1.len() as int, x));
        }
    }
}

proof fn lemma_walk_concat(c: Seq<Instr>, a: int, b: int, e: int)
    requires
        walks_to(c, a, b),
        walks_to(c, b, e),
        a <= b,
    ensures
        walks_to(c, a, e),
        forall|x: int| visits(c, a, b, x) || visits(c, b, e, x) ==> visits(c, a, e, x),
    decreases crate::vm::span(a, b),
{
    if a < b {
        lemma_step_grows(c, a);
        assert(walks_to(c, walk_step(c, a), b));
        assert(walk_step(c, a) <= b);
        lemma_walk_concat(c, walk_step(c, a), b, e);
        assert forall|x: int| visits(c, a, b, x) || visits(c, b, e, x) implies visits(c, a, e, x) by {
            if visits(c, b, e, x) {
                assert(visits(c, walk_step(c, a), e, x));
            }
        }
    } else {
        assert forall|x: int| visits(c, a, b, x) || visits(c, b, e, x) implies visits(c, a, e, x) by {
            assert(a == b);
        }
    }
}

/// The walk from `a` to `e` through `b` passes only what the walks `a .. b` and `b .. e` pass.
proof fn lemma_walk_split(c: Seq<Instr>, a: int, b: int, e: int, x: int)
    requires
        walks_to(c, a, b),
        a <= b,
        visits(c, a, e, x),
    ensures
        visits(c, a, b, x) || visits(c, b, e, x),
    decreases crate::vm::span(a, b),
{
    if a < b {
        lemma_step_grows(c, a);
        assert(walks_to(c, walk_step(c, a), b));
        assert(walk_step(c, a) <= b);
        if x != a {
            lemma_walk_split(c, walk_step(c, a), b, e, x);
        }
    }
}

/// An instruction that closes a group or jumps to its end.
pub open spec fn is_closer(i: Instr) -> bool {
    i is BraceJumpEnd || i is BraceEnd || i is ExtglobJumpEnd || i is ExtglobEnd
}

/// The longest top-level literal is a literal on the top-level walk of the code, and the walk
/// passes no instruction that closes a group.
pub open spec fn best_on_walk(e: Emission) -> bool {
    &&& walks_to(e.code, 0, e.code.len() as int)
    &&& forall|x: int|
        #![trigger visits(e.code, 0, e.code.len() as int, x)]
        visits(e.code, 0, e.code.len() as int, x) ==> !is_closer(e.code[x])
    &&& (e.best matches Some(b) ==> exists|x: int|
        visits(e.code, 0, e.code.len() as int, x) && e.code[x] == (Instr::Literal {
            off: b.0,
            len: b.1,
        }))
}

pub proof fn lemma_top_walk(st: Emission, s: Seq<SNode>, nc: bool)
    requires
        st.code.len() == 0,
        st.best is None,
        emission_fits(emit_seq(st, s, true, nc)),
    ensures
        best_on_walk(emit_seq(st, s, true, nc)),
    decreases s.len(),
{
    if s.len() == 0 {
    } else {
        let prev = emit_seq(st, s.subrange(0, s.len() - 1), true, nc);
        let n = s[s.len() - 1];
        let r = emit_node(prev, n, true, nc);
        lemma_emit_node(prev, n, true, nc);
        assert(emission_fits(prev));
        lemma_top_walk(st, s.subrange(0, s.len() - 1), nc);
        let l1 = prev.code.len() as int;
        lemma_walk_prefix(prev.code, r.code, 0);
        match n {
            SNode::Brace(brs) => {
                lemma_group(prev, brs, None, nc);
            },
            SNode::Extglob(k, brs) => {
                lemma_group(prev, brs, Some(k), nc);
            },
            _ => {},
        }
        assert(r.code.len() > l1);
        assert(walk_step(r.code, l1) == r.code.len());
        assert(walks_to(r.code, r.code.len() as int, r.code.len() as int));
        assert(walks_to(r.code, l1, r.code.len() as int));
        lemma_walk_concat(r.code, 0, l1, r.code.len() as int);
        assert(visits(r.code, l1, r.code.len() as int, l1));
        assert forall|x: int|
            #![trigger visits(r.code, 0, r.code.len() as int, x)]
            visits(r.code, 0, r.code.len() as int, x) implies !is_closer(r.code[x]) by {
            lemma_walk_split(r.code, 0, l1, r.code.len() as int, x);
            if visits(r.code, 0, l1, x) {
                assert(visits(prev.code, 0, l1, x));
                lemma_visits_range(prev.code, 0, l1, x);
                assert(r.code[x] == r.code.subrange(0, l1)[x]);
            } else {
                assert(!visits(r.code, r.code.len() as int, r.code.len() as int, x));
                assert(x == l1);
            }
        }
        if r.best != prev.best {
            assert(n is Literal);
            assert(r.code[l1] == (Instr::Literal { off: (r.best->0).0, len: (r.best->0).1 }));
        } else if let Some(b) = prev.best {
            let x = choose|x: int| visits(prev.code, 0, l1, x) && prev.code[x] == (Instr::Literal { off: b.0, len: b.1 });
            lemma_visits_range(prev.code, 0, l1, x);
            assert(r.code[x] == r.code.subrange(0, l1)[x]);
            assert(visits(r.code, 0, r.code.len() as int, x));
        }
    }
}

/// A run of literals has the length the layout gives it.
pub proof fn lemma_lit_run_is_litsum(code: Seq<Instr>, start: int, end: int)
    requires
        start == 0,
        crate::compile::lit_run_len(code, start, end) is Some,
        end <= code.len(),
    ensures
        crate::compile::lit_run_len(code, start, end) == Some(litsum(code, end)),
        forall|x: int| 0 <= x < end ==> (#[trigger] code[x]) is Literal,
    decreases end - start,
{
    if end > start {
        lemma_lit_run_is_litsum(code, start, end - 1);
    }
}

/// The branch starts `emit_jumping` records: one per branch, from the code's end on, each
/// after the one before, each before the code's new end.
proof fn lemma_jumping_starts(st: Emission, brs: Seq<Seq<SNode>>, ext: bool, nc: bool)
    requires
        emit_jumping(st, brs, ext, nc).0.code.len() <= u32::MAX,
    ensures
        ({
            let j = emit_jumping(st, brs, ext, nc);
            &&& j.2.len() == brs.len()
            &&& forall|i: int| 0 <= i < j.2.len() ==> st.code.len() <= #[trigger] j.2[i] < j.0.code.len()
            &&& forall|i: int, k: int| 0 <= i < k < j.2.len() ==> #[trigger] j.2[i] < #[trigger] j.2[k]
            &&& brs.len() > 0 ==> j.2[0] == st.code.len()
        }),
    decreases brs.len(),
{
    if brs.len() > 0 {
        let pre = brs.subrange(0, brs.len() - 1);
        let prev = emit_jumping(st, pre, ext, nc);
        let s2 = emit_seq(prev.0, brs[brs.len() - 1], false, nc);
        lemma_seq(prev.0, brs[brs.len() - 1], false, nc);
        lemma_jumping(st, pre, ext, nc);
        lemma_jumping_starts(st, pre, ext, nc);
        if pre.len() > 0 {
            assert(pre[0] == brs[0]);
        }
    }
}

/// The branch starts `emit_branches` records: one per branch, the first right at the code's
/// end, each after the one before, each no later than the code's new end.
proof fn lemma_branches_starts(st: Emission, brs: Seq<Seq<SNode>>, ext: bool, nc: bool)
    requires
        emit_branches(st, brs, ext, nc).0.code.len() <= u32::MAX,
    ensures
        ({
            let b = emit_branches(st, brs, ext, nc);
            &&& b.2.len() == brs.len()
            &&& forall|i: int| 0 <= i < b.2.len() ==> st.code.len() <= #[trigger] b.2[i] <= b.0.code.len()
            &&& forall|i: int, k: int| 0 <= i < k < b.2.len() ==> #[trigger] b.2[i] < #[trigger] b.2[k]
            &&& brs.len() > 0 ==> b.2[0] == st.code.len()
        }),
{
    if brs.len() > 0 {
        let pre = brs.subrange(0, brs.len() - 1);
        let prev = emit_jumping(st, pre, ext, nc);
        lemma_seq(prev.0, brs[brs.len() - 1], false, nc);
        lemma_jumping(st, pre, ext, nc);
        lemma_jumping_starts(st, pre, ext, nc);
        if pre.len() > 0 {
            assert(pre[0] == brs[0]);
        }
    }
}

/// A brace or extended-glob group with `k` branches is laid out as one block that ends the
/// code: its opening instruction holds the group's end and the last `k` entries of the
/// alternative table; the block ends with the group's end marker; and those `k` entries are
/// the starts of the branches, in order, the first right after the opening instruction and
/// each inside the block.
pub proof fn law_group_layout(st: Emission, brs: Seq<Seq<SNode>>, kind: Option<crate::ast::ExtKind>, nc: bool)
    requires
        brs.len() >= 1,
        emission_fits(emit_node(
            st,
            match kind {
                Some(k) => SNode::Extglob(k, brs),
                None => SNode::Brace(brs),
            },
            false,
            nc,
        )),
    ensures
        ({
            let r = emit_node(
                st,
                match kind {
                    Some(k) => SNode::Extglob(k, brs),
                    None => SNode::Brace(brs),
                },
                false,
                nc,
            );
            let o = st.code.len() as int;
            let e = r.code.len() as int;
            let a = r.alts.len() - brs.len();
            &&& a >= st.alts.len()
            &&& r.code[o] == open_instr(kind, a as u32, r.alts.len() as u32, e as u32)
            &&& r.code[e - 1] == end_instr(kind is Some)
            &&& r.alts[a] == o + 1
            &&& forall|i: int| 0 <= i < brs.len() ==> o < #[trigger] r.alts[a + i] < e
            &&& forall|i: int, k: int| 0 <= i < k < brs.len() ==> #[trigger] r.alts[a + i] < #[trigger] r.alts[a + k]
        }),
{
    let ext = kind is Some;
    let n = match kind {
        Some(k) => SNode::Extglob(k, brs),
        None => SNode::Brace(brs),
    };
    let st1 = push_code(st, open_instr(kind, 0, 0, 0));
    let body = emit_branches(st1, brs, ext, nc);
    let r = close_group(st, body.0, body.1, body.2, kind);
    assert(emit_node(st, n, false, nc) == r);
    lemma_group(st, brs, kind, nc);
    lemma_branches(st1, brs, ext, nc);
    lemma_branches_starts(st1, brs, ext, nc);
    let o = st.code.len() as int;
    let e = r.code.len() as int;
    let a = body.0.alts.len() as int;
    assert(r.alts == body.0.alts + body.2);
    assert(a >= st.alts.len());
    assert(r.code.len() == body.0.code.len() + 1);
    assert forall|i: int| 0 <= i < brs.len() implies r.alts[a + i] == body.2[i] by {}
    let s3 = push_code(body.0, end_instr(ext));
    let c1 = s3.code.update(o, open_instr(kind, a as u32, (a + body.2.len()) as u32, e as u32));
    assert forall|i: int| 0 <= i < body.1.len() implies 0 <= #[trigger] body.1[i] < c1.len() && !(c1[body.1[i]] is Literal) by {
        assert(c1[body.1[i]] == body.0.code[body.1[i]]);
    }
    lemma_patch(c1, body.1, jump_instr(ext, e as u32));
    assert(r.code[e - 1] == c1[e - 1]);
}

} // verus!
