use vstd::prelude::*;

use crate::ast::SNode;
use crate::options::MatchOptions;
use crate::parse::{
    brace_branches, brace_spec, byte_at, class_byte, class_loop, class_spec, colon_close,
    ext_branches, seq_spec, star_run, ClassRes, PRes, Stop,
};

verus! {

// Parsing text after a prefix: every position, and every position reported, moves by the
// prefix's length; nothing else changes.

/// `r` with its position moved by `d`.
pub open spec fn shifted<T>(r: PRes<T>, d: int) -> PRes<T> {
    match r {
        PRes::Done(v, e) => PRes::Done(v, e + d),
        PRes::Fail(k, p) => PRes::Fail(k, p + d),
    }
}

pub open spec fn class_shifted(r: ClassRes, d: int) -> ClassRes {
    match r {
        ClassRes::Found(m, q) => ClassRes::Found(m, q + d),
        ClassRes::NotFound => ClassRes::NotFound,
        ClassRes::Error(k, p) => ClassRes::Error(k, p + d),
    }
}

pub(crate) proof fn lemma_byte_at_shift(pre: Seq<u8>, b: Seq<u8>, i: int)
    requires
        0 <= i,
    ensures
        byte_at(pre + b, i + pre.len()) == byte_at(b, i),
{
}

proof fn lemma_star_run_shift(pre: Seq<u8>, b: Seq<u8>, i: int)
    requires
        0 <= i,
    ensures
        star_run(pre + b, i + pre.len()) == star_run(b, i) + pre.len(),
    decreases b.len() - i,
{
    if i < b.len() && b[i] == 42u8 {
        lemma_star_run_shift(pre, b, i + 1);
    }
}

proof fn lemma_colon_close_shift(pre: Seq<u8>, b: Seq<u8>, j: int)
    requires
        0 <= j,
    ensures
        colon_close(pre + b, j + pre.len()) == match colon_close(b, j) {
            Some(x) => Some(x + pre.len()),
            None => None,
        },
    decreases b.len() - j,
{
    if j + 1 < b.len() && !(b[j] == 58u8 && b[j + 1] == 93u8) {
        lemma_colon_close_shift(pre, b, j + 1);
    }
}

pub(crate) proof fn lemma_class_loop_shift(pre: Seq<u8>, b: Seq<u8>, p: int, m: Set<u8>, first: bool)
    requires
        0 <= p,
    ensures
        class_loop(pre + b, p + pre.len(), m, first) == class_shifted(class_loop(b, p, m, first), pre.len() as int),
    decreases b.len() - p,
{
    let b2 = pre + b;
    let d = pre.len() as int;
    if p < b.len() {
        lemma_byte_at_shift(pre, b, p + 1);
        lemma_byte_at_shift(pre, b, p + 2);
        if b[p] == 91u8 && byte_at(b, p + 1) == Some(58u8) {
            lemma_colon_close_shift(pre, b, p);
        }
        let cc = if b[p] == 91u8 && byte_at(b, p + 1) == Some(58u8) {
            colon_close(b, p)
        } else {
            None
        };
        if let Some(j) = cc {
            if p + 2 <= j && j + 2 <= b.len() {
                assert(b2.subrange(p + 2 + d, j + d) =~= b.subrange(p + 2, j));
                lemma_class_loop_shift(pre, b, j + 2, m.union(Set::new(|x: u8| (crate::util::posix_spec(b.subrange(p + 2, j))->0)(x))), false);
            }
        }
        let (lo, p1) = class_byte(b, p)->0;
        assert(class_byte(b2, p + d) == Some((lo, p1 + d)));
        lemma_byte_at_shift(pre, b, p1);
        lemma_byte_at_shift(pre, b, p1 + 1);
        if let Some(hp) = class_byte(b, p1 + 1) {
            assert(class_byte(b2, p1 + 1 + d) == Some((hp.0, hp.1 + d)));
            lemma_class_loop_shift(pre, b, hp.1, m.union(crate::parse::range_set(lo, hp.0)), false);
        } else {
            assert(class_byte(b2, p1 + 1 + d) is None);
        }
        lemma_class_loop_shift(pre, b, p1, m.union(crate::parse::range_set(lo, lo)), false);
    }
}

proof fn lemma_class_spec_shift(pre: Seq<u8>, b: Seq<u8>, o: MatchOptions, pos: int)
    requires
        0 <= pos,
    ensures
        class_spec(pre + b, o, pos + pre.len()) == class_shifted(class_spec(b, o, pos), pre.len() as int),
{
    lemma_byte_at_shift(pre, b, pos + 1);
    lemma_class_loop_shift(pre, b, pos + 1, Set::empty(), true);
    lemma_class_loop_shift(pre, b, pos + 2, Set::empty(), true);
}

pub proof fn lemma_seq_shift(pre: Seq<u8>, b: Seq<u8>, o: MatchOptions, pos: int, stop: Stop, lit: Seq<u8>, out: Seq<SNode>)
    requires
        0 <= pos,
    ensures
        seq_spec(pre + b, o, pos + pre.len(), stop, lit, out) == shifted(seq_spec(b, o, pos, stop, lit, out), pre.len() as int),
        seq_spec(b, o, pos, stop, lit, out) matches PRes::Done(_, q) ==> q >= pos,
    decreases b.len() - pos, 0int,
{
    let b2 = pre + b;
    let d = pre.len() as int;
    if pos < b.len() && !crate::parse::is_stop(stop, b[pos]) {
        let c = b[pos];
        assert(b2[pos + d] == c);
        lemma_byte_at_shift(pre, b, pos + 1);
        if c == 92u8 {
            if pos + 1 < b.len() {
                lemma_seq_shift(pre, b, o, pos + 2, stop, lit.push(crate::parse::esc(b[pos + 1])), out);
            } else {
                lemma_seq_shift(pre, b, o, pos + 1, stop, lit.push(92u8), out);
            }
        } else if c == 47u8 {
            lemma_seq_shift(pre, b, o, pos + 1, stop, Seq::empty(), crate::parse::flush(lit, out).push(SNode::Sep));
        } else if crate::parse::is_ext_intro(c) && !o.noextglob && byte_at(b, pos + 1) == Some(40u8) {
            lemma_ext_shift(pre, b, o, pos + 2, Seq::empty());
            match ext_branches(b, o, pos + 2, Seq::empty()) {
                PRes::Done(brs, q) => if pos < q <= b.len() {
                    lemma_seq_shift(pre, b, o, q, stop, Seq::empty(), crate::parse::flush(lit, out).push(SNode::Extglob(crate::parse::ext_kind_of(c), brs)));
                },
                _ => {},
            }
        } else if c == 63u8 {
            lemma_seq_shift(pre, b, o, pos + 1, stop, Seq::empty(), crate::parse::flush(lit, out).push(SNode::AnyChar));
        } else if c == 42u8 {
            lemma_star_run_shift(pre, b, pos + 1);
            crate::parse::lemma_star_run(b, pos + 1);
            let q = star_run(b, pos + 1);
            lemma_seq_shift(pre, b, o, q, stop, Seq::empty(), crate::parse::flush(lit, out).push(
                if q > pos + 1 && !o.noglobstar {
                    SNode::Globstar
                } else {
                    SNode::Star
                },
            ));
        } else if c == 91u8 && !o.nobracket {
            lemma_class_spec_shift(pre, b, o, pos);
            lemma_seq_shift(pre, b, o, pos + 1, stop, seq![91u8], crate::parse::flush(lit, out));
            match class_spec(b, o, pos) {
                ClassRes::Found(m, q) => if pos < q <= b.len() {
                    lemma_seq_shift(pre, b, o, q, stop, Seq::empty(), crate::parse::flush(lit, out).push(SNode::Class(m)));
                },
                _ => {},
            }
        } else if c == 123u8 && !o.nobrace {
            lemma_brace_spec_shift(pre, b, o, pos, 0);
            lemma_seq_shift(pre, b, o, pos + 1, stop, seq![123u8], crate::parse::flush(lit, out));
            match brace_spec(b, o, pos, 0) {
                PRes::Done(r, q) => if r is Some && pos < q <= b.len() {
                    lemma_seq_shift(pre, b, o, q, stop, Seq::empty(), crate::parse::flush(lit, out).push(r->0));
                },
                _ => {},
            }
        } else {
            lemma_seq_shift(pre, b, o, pos + 1, stop, lit.push(c), out);
        }
    } else if pos < b.len() {
        assert(b2[pos + d] == b[pos]);
    }
}

pub proof fn lemma_ext_shift(pre: Seq<u8>, b: Seq<u8>, o: MatchOptions, pos: int, brs: Seq<Seq<SNode>>)
    requires
        0 <= pos,
    ensures
        ext_branches(pre + b, o, pos + pre.len(), brs) == shifted(ext_branches(b, o, pos, brs), pre.len() as int),
        ext_branches(b, o, pos, brs) matches PRes::Done(_, q) ==> q >= pos,
    decreases b.len() - pos, 1int,
{
    if pos <= b.len() {
        lemma_seq_shift(pre, b, o, pos, Stop::ExtglobPipeOrClose, Seq::empty(), Seq::empty());
        match seq_spec(b, o, pos, Stop::ExtglobPipeOrClose, Seq::empty(), Seq::empty()) {
            PRes::Done(nodes, q) => {
                lemma_byte_at_shift(pre, b, q);
                if byte_at(b, q) == Some(124u8) && pos <= q {
                    lemma_ext_shift(pre, b, o, q + 1, brs.push(nodes));
                }
            },
            _ => {},
        }
    }
}

pub proof fn lemma_brace_branches_shift(pre: Seq<u8>, b: Seq<u8>, o: MatchOptions, start: int, pos: int, brs: Seq<Seq<SNode>>)
    requires
        0 <= pos,
    ensures
        brace_branches(pre + b, o, start + pre.len(), pos + pre.len(), brs) == shifted(brace_branches(b, o, start, pos, brs), pre.len() as int),
        start <= pos ==> (brace_branches(b, o, start, pos, brs) matches PRes::Done(_, q) ==> q >= start),
    decreases b.len() - pos, 1int,
{
    if pos <= b.len() {
        lemma_seq_shift(pre, b, o, pos, Stop::BraceCommaOrClose, Seq::empty(), Seq::empty());
        match seq_spec(b, o, pos, Stop::BraceCommaOrClose, Seq::empty(), Seq::empty()) {
            PRes::Done(nodes, q) => {
                lemma_byte_at_shift(pre, b, q);
                if byte_at(b, q) == Some(44u8) && pos <= q {
                    lemma_brace_branches_shift(pre, b, o, start, q + 1, brs.push(nodes));
                }
            },
            _ => {},
        }
    }
}

pub proof fn lemma_brace_spec_shift(pre: Seq<u8>, b: Seq<u8>, o: MatchOptions, pos: int, depth: int)
    requires
        0 <= pos < b.len(),
    ensures
        brace_spec(pre + b, o, pos + pre.len(), depth) == shifted(brace_spec(b, o, pos, depth), pre.len() as int),
        brace_spec(b, o, pos, depth) matches PRes::Done(_, q) ==> q >= pos,
    decreases b.len() - pos - 1, 2int,
{
    let b2 = pre + b;
    let d = pre.len() as int;
    assert(b2.subrange(pos + d, b2.len() as int) =~= b.subrange(pos, b.len() as int));
    lemma_brace_branches_shift(pre, b, o, pos, pos + 1, Seq::empty());
}

} // verus!
