use vstd::prelude::*;

use crate::ast::SNode;
use crate::options::MatchOptions;
use crate::parse::{
    bang_run, brace_branches, brace_spec, byte_at, class_spec, ext_branches, pattern_spec, seq_spec,
    star_run, PRes, Stop,
};
use crate::shift::{lemma_seq_shift, shifted};

verus! {

// The parser reads only some of the options: two option sets that agree on those parse
// every text alike.

/// `o1` and `o2` agree on every option the parser reads after the leading `!`s.
pub open spec fn same_parse_opts(o1: MatchOptions, o2: MatchOptions) -> bool {
    &&& o1.noextglob == o2.noextglob
    &&& o1.noglobstar == o2.noglobstar
    &&& o1.nobracket == o2.nobracket
    &&& o1.nobrace == o2.nobrace
    &&& o1.max_brace_depth == o2.max_brace_depth
    &&& o1.nocase == o2.nocase
    &&& o1.mode == o2.mode
}

proof fn lemma_seq_opts(b: Seq<u8>, o1: MatchOptions, o2: MatchOptions, pos: int, stop: Stop, lit: Seq<u8>, out: Seq<SNode>)
    requires
        same_parse_opts(o1, o2),
    ensures
        seq_spec(b, o1, pos, stop, lit, out) == seq_spec(b, o2, pos, stop, lit, out),
    decreases b.len() - pos, 0int,
{
    if 0 <= pos < b.len() && !crate::parse::is_stop(stop, b[pos]) {
        let c = b[pos];
        if c == 92u8 {
            if pos + 1 < b.len() {
                lemma_seq_opts(b, o1, o2, pos + 2, stop, lit.push(crate::parse::esc(b[pos + 1])), out);
            } else {
                lemma_seq_opts(b, o1, o2, pos + 1, stop, lit.push(92u8), out);
            }
        } else if c == 47u8 {
            lemma_seq_opts(b, o1, o2, pos + 1, stop, Seq::empty(), crate::parse::flush(lit, out).push(SNode::Sep));
        } else if crate::parse::is_ext_intro(c) && !o1.noextglob && byte_at(b, pos + 1) == Some(40u8) {
            lemma_ext_opts(b, o1, o2, pos + 2, Seq::empty());
            match ext_branches(b, o1, pos + 2, Seq::empty()) {
                PRes::Done(brs, q) => if pos < q <= b.len() {
                    lemma_seq_opts(b, o1, o2, q, stop, Seq::empty(), crate::parse::flush(lit, out).push(
                        SNode::Extglob(crate::parse::ext_kind_of(c), brs),
                    ));
                },
                _ => {},
            }
        } else if c == 63u8 {
            lemma_seq_opts(b, o1, o2, pos + 1, stop, Seq::empty(), crate::parse::flush(lit, out).push(SNode::AnyChar));
        } else if c == 42u8 {
            crate::parse::lemma_star_run(b, pos + 1);
            let q = star_run(b, pos + 1);
            lemma_seq_opts(b, o1, o2, q, stop, Seq::empty(), crate::parse::flush(lit, out).push(
                if q > pos + 1 && !o1.noglobstar {
                    SNode::Globstar
                } else {
                    SNode::Star
                },
            ));
        } else if c == 91u8 && !o1.nobracket {
            assert(class_spec(b, o1, pos) == class_spec(b, o2, pos));
            lemma_seq_opts(b, o1, o2, pos + 1, stop, seq![91u8], crate::parse::flush(lit, out));
            match class_spec(b, o1, pos) {
                crate::parse::ClassRes::Found(m, q) => if pos < q <= b.len() {
                    lemma_seq_opts(b, o1, o2, q, stop, Seq::empty(), crate::parse::flush(lit, out).push(SNode::Class(m)));
                },
                _ => {},
            }
        } else if c == 123u8 && !o1.nobrace {
            lemma_brace_spec_opts(b, o1, o2, pos, 0);
            lemma_seq_opts(b, o1, o2, pos + 1, stop, seq![123u8], crate::parse::flush(lit, out));
            match brace_spec(b, o1, pos, 0) {
                PRes::Done(r, q) => if r is Some && pos < q <= b.len() {
                    lemma_seq_opts(b, o1, o2, q, stop, Seq::empty(), crate::parse::flush(lit, out).push(r->0));
                },
                _ => {},
            }
        } else {
            lemma_seq_opts(b, o1, o2, pos + 1, stop, lit.push(c), out);
        }
    }
}

proof fn lemma_ext_opts(b: Seq<u8>, o1: MatchOptions, o2: MatchOptions, pos: int, brs: Seq<Seq<SNode>>)
    requires
        same_parse_opts(o1, o2),
    ensures
        ext_branches(b, o1, pos, brs) == ext_branches(b, o2, pos, brs),
    decreases b.len() - pos, 1int,
{
    if 0 <= pos <= b.len() {
        lemma_seq_opts(b, o1, o2, pos, Stop::ExtglobPipeOrClose, Seq::empty(), Seq::empty());
        match seq_spec(b, o1, pos, Stop::ExtglobPipeOrClose, Seq::empty(), Seq::empty()) {
            PRes::Done(nodes, q) => {
                if byte_at(b, q) == Some(124u8) && pos <= q {
                    lemma_ext_opts(b, o1, o2, q + 1, brs.push(nodes));
                }
            },
            _ => {},
        }
    }
}

proof fn lemma_brace_branches_opts(
    b: Seq<u8>,
    o1: MatchOptions,
    o2: MatchOptions,
    start: int,
    pos: int,
    brs: Seq<Seq<SNode>>,
)
    requires
        same_parse_opts(o1, o2),
    ensures
        brace_branches(b, o1, start, pos, brs) == brace_branches(b, o2, start, pos, brs),
    decreases b.len() - pos, 1int,
{
    if 0 <= pos <= b.len() {
        lemma_seq_opts(b, o1, o2, pos, Stop::BraceCommaOrClose, Seq::empty(), Seq::empty());
        match seq_spec(b, o1, pos, Stop::BraceCommaOrClose, Seq::empty(), Seq::empty()) {
            PRes::Done(nodes, q) => {
                if byte_at(b, q) == Some(44u8) && pos <= q {
                    lemma_brace_branches_opts(b, o1, o2, start, q + 1, brs.push(nodes));
                }
            },
            _ => {},
        }
    }
}

proof fn lemma_brace_spec_opts(b: Seq<u8>, o1: MatchOptions, o2: MatchOptions, pos: int, depth: int)
    requires
        same_parse_opts(o1, o2),
    ensures
        brace_spec(b, o1, pos, depth) == brace_spec(b, o2, pos, depth),
    decreases b.len() - pos - 1, 2int,
{
    if 0 <= pos < b.len() {
        lemma_brace_branches_opts(b, o1, o2, pos, pos + 1, Seq::empty());
    }
}

/// A pattern parses alike under two option sets that agree on what the parser reads.
pub proof fn lemma_pattern_opts(b: Seq<u8>, o1: MatchOptions, o2: MatchOptions)
    requires
        same_parse_opts(o1, o2),
        o1.nonegate == o2.nonegate,
        o1.max_length == o2.max_length,
    ensures
        pattern_spec(b, o1) == pattern_spec(b, o2),
{
    lemma_seq_opts(b, o1, o2, crate::parse::neg_end(b, o1), Stop::Eof, Seq::empty(), Seq::empty());
}

/// The options with negation by leading `!`s turned off.
pub open spec fn without_negation(o: MatchOptions) -> MatchOptions {
    MatchOptions { nonegate: true, ..o }
}

proof fn lemma_bang_run_bound(b: Seq<u8>, i: int)
    requires
        0 <= i <= b.len(),
    ensures
        i <= bang_run(b, i) <= b.len(),
    decreases b.len() - i,
{
    if i < b.len() && b[i] == 33u8 && byte_at(b, i + 1) != Some(40u8) {
        lemma_bang_run_bound(b, i + 1);
    }
}

/// The leading `!`s of a pattern (each not followed by `(`) only negate it: without
/// `nonegate`, a pattern within the length limit parses to the elements the text after them
/// parses to with negation turned off, negated when their number is odd, and a rejection
/// moves by their number; with `nonegate` a pattern is never negated.
pub proof fn law_negation_prefix(b: Seq<u8>, o: MatchOptions)
    ensures
        ({
            let k = bang_run(b, 0);
            let rest = b.subrange(k, b.len() as int);
            !o.nonegate && b.len() <= o.max_length ==> pattern_spec(b, o) == match pattern_spec(
                rest,
                without_negation(o),
            ) {
                PRes::Done(v, e) => PRes::Done((k % 2 == 1, v.1), e + k),
                PRes::Fail(kk, p) => PRes::Fail(kk, p + k),
            }
        }),
        o.nonegate ==> (pattern_spec(b, o) matches PRes::Done(v, _) ==> !v.0),
{
    let k = bang_run(b, 0);
    let rest = b.subrange(k, b.len() as int);
    let pre = b.subrange(0, k);
    let on = without_negation(o);
    lemma_bang_run_bound(b, 0);
    if !o.nonegate && b.len() <= o.max_length {
        assert(pre + rest =~= b);
        lemma_seq_shift(pre, rest, o, 0, Stop::Eof, Seq::empty(), Seq::empty());
        lemma_seq_opts(rest, o, on, 0, Stop::Eof, Seq::empty(), Seq::empty());
        assert(rest.len() <= on.max_length);
        assert(crate::parse::neg_end(rest, on) == 0);
    }
}

} // verus!
