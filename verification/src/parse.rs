use vstd::prelude::*;
use vstd::string::StringSliceAdditionalSpecFns;

use crate::ast::{
    class_set, lemma_branches_view_len, lemma_branches_view_push, lemma_nodes_view_concat,
    lemma_nodes_view_len, lemma_nodes_view_push, node_view, nodes_view, branches_view, ExtKind, Node, Pattern, SNode,
};
use crate::options::{MatchOptions, Mode};
use crate::search::{find_sub, occurs_at};
use crate::util::{is_lower, is_upper, posix_class, posix_spec, ByteClass};

verus! {

/// Where a sequence of pattern elements ends: at the end of input, or also at a brace's
/// `,`/`}`, or at an extended glob's `|`/`)`.
#[derive(Clone, Copy, PartialEq, Eq, Structural)]
pub enum Stop {
    Eof,
    BraceCommaOrClose,
    ExtglobPipeOrClose,
}

/// Why a pattern is rejected.
#[derive(Clone, Copy, Debug, PartialEq, Eq, Structural)]
pub enum PErr {
    TooLong,
    UnterminatedClass,
    BraceDepth,
    UnterminatedExtglob,
    BadPosixName,
}

/// The message of each rejection.
pub open spec fn err_msg(k: PErr) -> Seq<char> {
    match k {
        PErr::TooLong => "pattern exceeds max length"@,
        PErr::UnterminatedClass => "unterminated class"@,
        PErr::BraceDepth => "max brace depth exceeded"@,
        PErr::UnterminatedExtglob => "unterminated extglob"@,
        PErr::BadPosixName => "malformed class name"@,
    }
}

/// The outcome of parsing from a position: a value and the position after it, or a
/// rejection at a position.
pub enum PRes<T> {
    Done(T, int),
    Fail(PErr, int),
}

/// The outcome of parsing a bracket expression.
pub enum ClassRes {
    Found(Set<u8>, int),
    NotFound,
    Error(PErr, int),
}

pub open spec fn byte_at(b: Seq<u8>, i: int) -> Option<u8> {
    if 0 <= i < b.len() {
        Some(b[i])
    } else {
        None
    }
}

/// The byte an escape `\c` stands for.
pub open spec fn esc(c: u8) -> u8 {
    if c == 97u8 {
        7u8
    } else if c == 98u8 {
        8u8
    } else if c == 110u8 {
        10u8
    } else if c == 114u8 {
        13u8
    } else if c == 116u8 {
        9u8
    } else {
        c
    }
}

/// Ends the pending literal bytes `lit` as a literal node.
pub open spec fn flush(lit: Seq<u8>, out: Seq<SNode>) -> Seq<SNode> {
    if lit.len() == 0 {
        out
    } else {
        out.push(SNode::Literal(lit))
    }
}

pub open spec fn is_stop(stop: Stop, c: u8) -> bool {
    match stop {
        Stop::Eof => false,
        Stop::BraceCommaOrClose => c == 44u8 || c == 125u8,
        Stop::ExtglobPipeOrClose => c == 124u8 || c == 41u8,
    }
}

/// The first index at or after `i` that is not a `*`.
pub open spec fn star_run(b: Seq<u8>, i: int) -> int
    decreases b.len() - i,
{
    if 0 <= i < b.len() && b[i] == 42u8 {
        star_run(b, i + 1)
    } else {
        i
    }
}

pub proof fn lemma_star_run(b: Seq<u8>, i: int)
    requires
        0 <= i <= b.len(),
    ensures
        i <= star_run(b, i) <= b.len(),
        forall|j: int| i <= j < star_run(b, i) ==> b[j] == 42u8,
        star_run(b, i) < b.len() ==> b[star_run(b, i)] != 42u8,
    decreases b.len() - i,
{
    if i < b.len() && b[i] == 42u8 {
        lemma_star_run(b, i + 1);
    }
}

/// The bytes that start an extended glob when followed by `(`.
pub open spec fn is_ext_intro(c: u8) -> bool {
    c == 63u8 || c == 42u8 || c == 43u8 || c == 64u8 || c == 33u8
}

pub open spec fn ext_kind_of(c: u8) -> ExtKind {
    if c == 63u8 {
        ExtKind::Optional
    } else if c == 42u8 {
        ExtKind::Star
    } else if c == 43u8 {
        ExtKind::Plus
    } else if c == 64u8 {
        ExtKind::At
    } else {
        ExtKind::Negate
    }
}

/// A brace group; a single branch keeps its braces as literal text.
pub open spec fn make_brace(brs: Seq<Seq<SNode>>) -> SNode {
    if brs.len() == 1 {
        SNode::Brace(
            seq![
                seq![SNode::Literal(seq![123u8])] + brs[0] + seq![SNode::Literal(seq![125u8])],
            ],
        )
    } else {
        SNode::Brace(brs)
    }
}

/// The brace scan from `i` of the text `s` that starts at a `{`: whether the group closes
/// with a `,` at its own depth before it does.
pub open spec fn bb_loop(s: Seq<u8>, i: int, depth: int, in_class: bool, has: bool) -> bool
    decreases s.len() + 2 - i,
{
    if i < 0 || i >= s.len() {
        false
    } else {
        let c = s[i];
        if c == 92u8 {
            bb_loop(s, i + 2, depth, in_class, has)
        } else if c == 91u8 && !in_class {
            bb_loop(s, i + 1, depth, true, has)
        } else if c == 93u8 && in_class {
            bb_loop(s, i + 1, depth, false, has)
        } else if c == 123u8 && !in_class {
            bb_loop(s, i + 1, depth + 1, in_class, has)
        } else if c == 125u8 && !in_class {
            if depth - 1 == 0 {
                has
            } else {
                bb_loop(s, i + 1, depth - 1, in_class, has)
            }
        } else if c == 44u8 && !in_class && depth == 1 {
            bb_loop(s, i + 1, depth, in_class, true)
        } else {
            bb_loop(s, i + 1, depth, in_class, has)
        }
    }
}

pub open spec fn brace_balanced_spec(s: Seq<u8>) -> bool {
    bb_loop(s, 0, 0, false, false)
}

/// The index of the first `:]` at or after `j`.
pub open spec fn colon_close(b: Seq<u8>, j: int) -> Option<int>
    decreases b.len() - j,
{
    if j < 0 || j + 1 >= b.len() {
        None
    } else if b[j] == 58u8 && b[j + 1] == 93u8 {
        Some(j)
    } else {
        colon_close(b, j + 1)
    }
}

/// Reads one byte of a bracket expression at `p`, with its escapes.
pub open spec fn class_byte(b: Seq<u8>, p: int) -> Option<(u8, int)> {
    if p < 0 || p >= b.len() {
        None
    } else if b[p] == 92u8 {
        if p + 1 < b.len() {
            Some((esc(b[p + 1]), p + 2))
        } else {
            Some((92u8, p + 1))
        }
    } else {
        Some((b[p], p + 1))
    }
}

pub open spec fn range_set(lo: u8, hi: u8) -> Set<u8> {
    Set::new(|x: u8| (lo <= x <= hi) || (hi <= x <= lo))
}

/// The members of a bracket expression, read from `p` on.
pub open spec fn class_loop(b: Seq<u8>, p: int, m: Set<u8>, first: bool) -> ClassRes
    decreases b.len() - p,
{
    if p < 0 || p >= b.len() {
        ClassRes::NotFound
    } else if b[p] == 93u8 && !first {
        ClassRes::Found(m, p + 1)
    } else {
        let cc = if b[p] == 91u8 && byte_at(b, p + 1) == Some(58u8) {
            colon_close(b, p)
        } else {
            None
        };
        if cc matches Some(j) && j - p < 2 {
            ClassRes::Error(PErr::BadPosixName, p)
        } else if cc matches Some(j) && p + 2 <= j && j + 2 <= b.len() && posix_spec(
            b.subrange(p + 2, j),
        ) is Some {
            let f = posix_spec(b.subrange(p + 2, cc->0))->0;
            class_loop(b, cc->0 + 2, m.union(Set::new(|x: u8| f(x))), false)
        } else {
            let (lo, p1) = class_byte(b, p)->0;
            if byte_at(b, p1) == Some(45u8) && byte_at(b, p1 + 1) != Some(93u8) {
                match class_byte(b, p1 + 1) {
                    None => ClassRes::Error(PErr::UnterminatedClass, p1 + 1),
                    Some(hp) => class_loop(b, hp.1, m.union(range_set(lo, hp.0)), false),
                }
            } else {
                class_loop(b, p1, m.union(range_set(lo, lo)), false)
            }
        }
    }
}

/// A class after case folding and then negation: under `nocase` both cases of a listed
/// letter are listed, so a negated class leaves out both.
pub open spec fn finish_class(m: Set<u8>, neg: bool, o: MatchOptions) -> Set<u8> {
    let m1 = if o.nocase {
        Set::new(
            |x: u8|
                m.contains(x) || (is_upper(x) && m.contains((x + 32) as u8)) || (is_lower(x)
                    && m.contains((x - 32) as u8)),
        )
    } else {
        m
    };
    if neg {
        Set::new(
            |x: u8| !m1.contains(x) && x != 47u8 && !(o.mode == Mode::Windows && x == 92u8),
        )
    } else {
        m1
    }
}

/// A bracket expression whose `[` is at `pos`.
pub open spec fn class_spec(b: Seq<u8>, o: MatchOptions, pos: int) -> ClassRes {
    let neg = byte_at(b, pos + 1) == Some(33u8) || byte_at(b, pos + 1) == Some(94u8);
    let p1 = if neg {
        pos + 2
    } else {
        pos + 1
    };
    match class_loop(b, p1, Set::empty(), true) {
        ClassRes::Found(m, q) => ClassRes::Found(finish_class(m, neg, o), q),
        r => r,
    }
}

/// A sequence of pattern elements from `pos` up to `stop`; `lit` holds pending literal
/// bytes and `out` the elements so far.
pub open spec fn seq_spec(
    b: Seq<u8>,
    o: MatchOptions,
    pos: int,
    stop: Stop,
    lit: Seq<u8>,
    out: Seq<SNode>,
) -> PRes<Seq<SNode>>
    decreases b.len() - pos, 0int,
{
    if pos < 0 || pos >= b.len() || is_stop(stop, b[pos]) {
        PRes::Done(flush(lit, out), pos)
    } else {
        let c = b[pos];
        if c == 92u8 {
            if pos + 1 < b.len() {
                seq_spec(b, o, pos + 2, stop, lit.push(esc(b[pos + 1])), out)
            } else {
                seq_spec(b, o, pos + 1, stop, lit.push(92u8), out)
            }
        } else if c == 47u8 {
            seq_spec(b, o, pos + 1, stop, Seq::empty(), flush(lit, out).push(SNode::Sep))
        } else if is_ext_intro(c) && !o.noextglob && byte_at(b, pos + 1) == Some(40u8) {
            match ext_branches(b, o, pos + 2, Seq::empty()) {
                PRes::Fail(k, p) => PRes::Fail(k, p),
                PRes::Done(brs, q) => if pos < q <= b.len() {
                    seq_spec(
                        b,
                        o,
                        q,
                        stop,
                        Seq::empty(),
                        flush(lit, out).push(SNode::Extglob(ext_kind_of(c), brs)),
                    )
                } else {
                    PRes::Fail(PErr::UnterminatedExtglob, pos)
                },
            }
        } else if c == 63u8 {
            seq_spec(b, o, pos + 1, stop, Seq::empty(), flush(lit, out).push(SNode::AnyChar))
        } else if c == 42u8 {
            let q = star_run(b, pos + 1);
            proof {
                lemma_star_run(b, pos + 1);
            }
            seq_spec(
                b,
                o,
                q,
                stop,
                Seq::empty(),
                flush(lit, out).push(
                    if q > pos + 1 && !o.noglobstar {
                        SNode::Globstar
                    } else {
                        SNode::Star
                    },
                ),
            )
        } else if c == 91u8 && !o.nobracket {
            match class_spec(b, o, pos) {
                ClassRes::Error(k, p) => PRes::Fail(k, p),
                ClassRes::Found(m, q) => if pos < q <= b.len() {
                    seq_spec(b, o, q, stop, Seq::empty(), flush(lit, out).push(SNode::Class(m)))
                } else {
                    seq_spec(b, o, pos + 1, stop, seq![91u8], flush(lit, out))
                },
                ClassRes::NotFound => seq_spec(b, o, pos + 1, stop, seq![91u8], flush(lit, out)),
            }
        } else if c == 123u8 && !o.nobrace {
            match brace_spec(b, o, pos, 0) {
                PRes::Fail(k, p) => PRes::Fail(k, p),
                PRes::Done(r, q) => if r is Some && pos < q <= b.len() {
                    seq_spec(b, o, q, stop, Seq::empty(), flush(lit, out).push(r->0))
                } else {
                    seq_spec(b, o, pos + 1, stop, seq![123u8], flush(lit, out))
                },
            }
        } else {
            seq_spec(b, o, pos + 1, stop, lit.push(c), out)
        }
    }
}

/// The branches of an extended glob from `pos` (after its `(`); `brs` holds those so far.
pub open spec fn ext_branches(b: Seq<u8>, o: MatchOptions, pos: int, brs: Seq<Seq<SNode>>) -> PRes<
    Seq<Seq<SNode>>,
>
    decreases b.len() - pos, 1int,
{
    if pos < 0 || pos > b.len() {
        PRes::Fail(PErr::UnterminatedExtglob, pos)
    } else {
        match seq_spec(b, o, pos, Stop::ExtglobPipeOrClose, Seq::empty(), Seq::empty()) {
            PRes::Fail(k, p) => PRes::Fail(k, p),
            PRes::Done(nodes, q) => {
                let brs2 = brs.push(nodes);
                if byte_at(b, q) == Some(124u8) {
                    if pos <= q {
                        ext_branches(b, o, q + 1, brs2)
                    } else {
                        PRes::Fail(PErr::UnterminatedExtglob, q)
                    }
                } else if byte_at(b, q) == Some(41u8) {
                    PRes::Done(brs2, q + 1)
                } else {
                    PRes::Fail(PErr::UnterminatedExtglob, q)
                }
            },
        }
    }
}

/// A brace group whose `{` is at `pos`, opened at nesting `depth`: `None` when the text
/// from `pos` does not form a group.
pub open spec fn brace_spec(b: Seq<u8>, o: MatchOptions, pos: int, depth: int) -> PRes<
    Option<SNode>,
>
    decreases b.len() - pos - 1, 2int,
{
    if depth >= o.max_brace_depth {
        PRes::Fail(PErr::BraceDepth, pos)
    } else if pos < 0 || pos >= b.len() || !brace_balanced_spec(b.subrange(pos, b.len() as int)) {
        PRes::Done(None, pos)
    } else {
        brace_branches(b, o, pos, pos + 1, Seq::empty())
    }
}

/// The branches of a brace group whose `{` is at `start`, from `pos` on; `brs` holds those
/// so far.
pub open spec fn brace_branches(
    b: Seq<u8>,
    o: MatchOptions,
    start: int,
    pos: int,
    brs: Seq<Seq<SNode>>,
) -> PRes<Option<SNode>>
    decreases b.len() - pos, 1int,
{
    if pos < 0 || pos > b.len() {
        PRes::Done(None, start)
    } else {
        match seq_spec(b, o, pos, Stop::BraceCommaOrClose, Seq::empty(), Seq::empty()) {
            PRes::Fail(k, p) => PRes::Fail(k, p),
            PRes::Done(nodes, q) => {
                let brs2 = brs.push(nodes);
                if byte_at(b, q) == Some(44u8) {
                    if pos <= q {
                        brace_branches(b, o, start, q + 1, brs2)
                    } else {
                        PRes::Done(None, start)
                    }
                } else if byte_at(b, q) == Some(125u8) {
                    PRes::Done(Some(make_brace(brs2)), q + 1)
                } else {
                    PRes::Done(None, start)
                }
            },
        }
    }
}

/// A rejected pattern: what is wrong, and the byte offset where it was found.
#[derive(Clone, Debug)]
pub struct ParseError {
    pub message: &'static str,
    pub position: usize,
}

pub type ParseResult<T> = Result<T, ParseError>;

/// `e` reports the rejection `k` at byte offset `p`.
pub open spec fn err_is(e: ParseError, k: PErr, p: int) -> bool {
    e.message@ == err_msg(k) && e.position == p
}

/// `r` is the executable outcome of the parse outcome `s`, ending at `end`.
pub open spec fn seq_res(r: ParseResult<Vec<Node>>, s: PRes<Seq<SNode>>, end: int) -> bool {
    match r {
        Ok(v) => s == PRes::Done(nodes_view(v@), end),
        Err(e) => s matches PRes::Fail(k, p) && err_is(e, k, p),
    }
}

fn make_err(k: PErr, position: usize) -> (e: ParseError)
    ensures
        err_is(e, k, position as int),
{
    let message = match k {
        PErr::TooLong => "pattern exceeds max length",
        PErr::UnterminatedClass => "unterminated class",
        PErr::BraceDepth => "max brace depth exceeded",
        PErr::UnterminatedExtglob => "unterminated extglob",
        PErr::BadPosixName => "malformed class name",
    };
    ParseError { message, position }
}

/// The rejection of a pattern too long to compile.
pub fn too_long() -> (e: ParseError)
    ensures
        err_is(e, PErr::TooLong, 0),
{
    make_err(PErr::TooLong, 0)
}

fn esc_byte(c: u8) -> (r: u8)
    ensures
        r == esc(c),
{
    if c == 97u8 {
        7u8
    } else if c == 98u8 {
        8u8
    } else if c == 110u8 {
        10u8
    } else if c == 114u8 {
        13u8
    } else if c == 116u8 {
        9u8
    } else {
        c
    }
}

fn ext_kind(c: u8) -> (k: ExtKind)
    ensures
        k == ext_kind_of(c),
{
    if c == 63u8 {
        ExtKind::Optional
    } else if c == 42u8 {
        ExtKind::Star
    } else if c == 43u8 {
        ExtKind::Plus
    } else if c == 64u8 {
        ExtKind::At
    } else {
        ExtKind::Negate
    }
}

/// Ends the pending literal bytes as a literal node.
fn flush_lit(lit: &mut Vec<u8>, out: &mut Vec<Node>)
    ensures
        final(lit)@ == Seq::<u8>::empty(),
        nodes_view(final(out)@) == flush(old(lit)@, nodes_view(old(out)@)),
{
    if lit.len() > 0 {
        let mut taken: Vec<u8> = Vec::new();
        core::mem::swap(&mut taken, lit);
        proof {
            lemma_nodes_view_push(out@, Node::Literal(taken));
        }
        out.push(Node::Literal(taken));
    }
}

/// Appends node `n` to `out`.
fn push_node(out: &mut Vec<Node>, n: Node)
    ensures
        nodes_view(final(out)@) == nodes_view(old(out)@).push(node_view(n)),
{
    proof {
        lemma_nodes_view_push(out@, n);
    }
    out.push(n);
}

proof fn lemma_colon_close_skip(b: Seq<u8>, j: int, k: int)
    requires
        0 <= j <= k <= b.len(),
        forall|m: int| j <= m < k && m + 1 < b.len() ==> !(#[trigger] b[m] == 58u8 && b[m + 1] == 93u8),
    ensures
        colon_close(b, j) == colon_close(b, k),
    decreases k - j,
{
    if j < k {
        lemma_colon_close_skip(b, j + 1, k);
    }
}

/// `colon_close` read off the first `:]` found from `p` on.
proof fn lemma_colon_close_found(b: Seq<u8>, p: int, r: Option<usize>)
    requires
        0 <= p <= b.len(),
        r matches Some(i) ==> occurs_at(b.subrange(p, b.len() as int), seq![58u8, 93u8], i as int, false),
        r matches Some(i) ==> forall|j: int| 0 <= j < i ==> !occurs_at(b.subrange(p, b.len() as int), seq![58u8, 93u8], j, false),
        r is None ==> forall|j: int| !occurs_at(b.subrange(p, b.len() as int), seq![58u8, 93u8], j, false),
    ensures
        colon_close(b, p) == (match r {
            Some(i) => Some(p + i),
            None => None::<int>,
        }),
{
    let h = b.subrange(p, b.len() as int);
    let n = seq![58u8, 93u8];
    let lim = match r {
        Some(i) => p + i,
        None => b.len() as int,
    };
    assert forall|m: int| p <= m < lim && m + 1 < b.len() implies !(#[trigger] b[m] == 58u8 && b[m + 1] == 93u8) by {
        if b[m] == 58u8 && b[m + 1] == 93u8 {
            assert(h.subrange(m - p, m - p + 2) =~= n);
            assert(occurs_at(h, n, m - p, false));
        }
    }
    lemma_colon_close_skip(b, p, lim);
    match r {
        Some(i) => {
            assert(h.subrange(i as int, i + 2)[0] == n[0]);
            assert(h.subrange(i as int, i + 2)[1] == n[1]);
        },
        None => {},
    }
}

struct Parser<'a> {
    bytes: &'a [u8],
    pos: usize,
    opts: &'a MatchOptions,
}

impl<'a> Parser<'a> {
    /// Reads one byte of a bracket expression, with its escapes.
    fn read_class_byte(&mut self) -> (r: ParseResult<u8>)
        requires
            old(self).pos <= old(self).bytes@.len(),
        ensures
            final(self).bytes == old(self).bytes,
            final(self).opts == old(self).opts,
            match class_byte(old(self).bytes@, old(self).pos as int) {
                None => r matches Err(e) && err_is(e, PErr::UnterminatedClass, old(self).pos as int)
                    && final(self).pos == old(self).pos,
                Some(vq) => r matches Ok(v) && v == vq.0 && final(self).pos == vq.1,
            },
    {
        let len = self.bytes.len();
        if self.pos >= len {
            return Err(make_err(PErr::UnterminatedClass, self.pos));
        }
        let c = self.bytes[self.pos];
        if c == 92u8 {
            if self.pos + 1 < len {
                let n = self.bytes[self.pos + 1];
                self.pos = self.pos + 2;
                Ok(esc_byte(n))
            } else {
                self.pos = self.pos + 1;
                Ok(92u8)
            }
        } else {
            self.pos = self.pos + 1;
            Ok(c)
        }
    }

    /// Parses a bracket expression whose `[` is at the current position; `None` when it
    /// does not close, with the position left where it was.
    fn parse_class(&mut self) -> (r: ParseResult<Option<ByteClass>>)
        requires
            old(self).pos < old(self).bytes@.len(),
            old(self).bytes@[old(self).pos as int] == 91u8,
        ensures
            final(self).bytes == old(self).bytes,
            final(self).opts == old(self).opts,
            old(self).pos <= final(self).pos <= final(self).bytes@.len(),
            match r {
                Ok(Some(c)) => class_spec(old(self).bytes@, *old(self).opts, old(self).pos as int)
                    == ClassRes::Found(class_set(c), final(self).pos as int),
                Ok(None) => class_spec(old(self).bytes@, *old(self).opts, old(self).pos as int)
                    == ClassRes::NotFound && final(self).pos == old(self).pos,
                Err(e) => class_spec(old(self).bytes@, *old(self).opts, old(self).pos as int) matches ClassRes::Error(k, p)
                    && err_is(e, k, p),
            },
            r matches Ok(Some(_)) ==> old(self).pos < final(self).pos,
    {
        let ghost b = self.bytes@;
        let ghost o = *self.opts;
        let len = self.bytes.len();
        let start = self.pos;
        self.pos = start + 1;
        let mut cls = ByteClass::empty();
        let mut negated = false;
        if self.pos < len && (self.bytes[self.pos] == 33u8 || self.bytes[self.pos] == 94u8) {
            negated = true;
            self.pos = self.pos + 1;
        }
        let ghost p1 = self.pos as int;
        let mut first = true;
        assert(class_set(cls) =~= Set::<u8>::empty());
        loop
            invariant
                self.bytes == old(self).bytes,
                self.opts == old(self).opts,
                b == self.bytes@,
                o == *self.opts,
                len == b.len(),
                start == old(self).pos,
                start < p1 <= self.pos <= len,
                negated == (byte_at(b, start + 1) == Some(33u8) || byte_at(b, start + 1) == Some(
                    94u8,
                )),
                p1 == (if negated {
                    start + 2
                } else {
                    start + 1
                }),
                class_loop(b, self.pos as int, class_set(cls), first) == class_loop(
                    b,
                    p1,
                    Set::empty(),
                    true,
                ),
            ensures
                self.pos < len,
                b[self.pos as int] == 93u8,
                !first,
            decreases len - self.pos,
        {
            if self.pos >= len {
                self.pos = start;
                return Ok(None);
            }
            let c = self.bytes[self.pos];
            if c == 93u8 && !first {
                break;
            }
            if c == 91u8 && self.pos + 1 < len && self.bytes[self.pos + 1] == 58u8 {
                let found = find_sub(&self.bytes[self.pos..len], &[58u8, 93u8]);
                proof {
                    assert(self.bytes@.subrange(self.pos as int, len as int) == b.subrange(self.pos as int, b.len() as int));
                    lemma_colon_close_found(b, self.pos as int, found);
                }
                if let Some(end) = found {
                    if end < 2 {
                        return Err(make_err(PErr::BadPosixName, self.pos));
                    }
                    let name = &self.bytes[self.pos + 2..self.pos + end];
                    let named = posix_class(name);
                    if let Some(nc) = named {
                        let ghost m0 = class_set(cls);
                        cls.union_with(&nc);
                        proof {
                            let f = posix_spec(b.subrange(self.pos + 2, self.pos + end))->0;
                            assert(class_set(cls) =~= m0.union(Set::new(|x: u8| f(x))));
                        }
                        self.pos = self.pos + end + 2;
                        first = false;
                        continue;
                    }
                }
            }
            let ghost m0 = class_set(cls);
            let ghost q0 = self.pos as int;
            let lo = match self.read_class_byte() {
                Ok(v) => v,
                Err(e) => return Err(e),
            };
            let ghost q1 = self.pos as int;
            if self.pos < len && self.bytes[self.pos] == 45u8 && !(self.pos + 1 < len
                && self.bytes[self.pos + 1] == 93u8) {
                self.pos = self.pos + 1;
                let hi = match self.read_class_byte() {
                    Ok(v) => v,
                    Err(e) => return Err(e),
                };
                cls.add_range(lo, hi);
                proof {
                    assert(class_set(cls) =~= m0.union(range_set(lo, hi)));
                }
            } else {
                cls.add_range(lo, lo);
                proof {
                    assert(class_set(cls) =~= m0.union(range_set(lo, lo)));
                }
            }
            first = false;
        }
        let ghost m = class_set(cls);
        proof {
            assert(class_loop(b, p1, Set::empty(), true) == ClassRes::Found(m, self.pos + 1));
        }
        self.pos = self.pos + 1;
        if self.opts.nocase {
            cls.fold_ascii_case();
        }
        if negated {
            cls.negate();
            cls.remove(47u8);
            if self.opts.mode == Mode::Windows {
                cls.remove(92u8);
            }
        }
        proof {
            assert(class_set(cls) =~= finish_class(m, negated, o));
        }
        Ok(Some(cls))
    }

    /// Parses the branches of an extended glob after its `(`, through its `)`.
    fn parse_extglob_branches(&mut self) -> (r: ParseResult<Vec<Vec<Node>>>)
        requires
            old(self).pos <= old(self).bytes@.len(),
        ensures
            final(self).bytes == old(self).bytes,
            final(self).opts == old(self).opts,
            old(self).pos <= final(self).pos <= final(self).bytes@.len(),
            match r {
                Ok(v) => ext_branches(old(self).bytes@, *old(self).opts, old(self).pos as int, Seq::empty())
                    == PRes::Done(branches_view(v@), final(self).pos as int),
                Err(e) => ext_branches(old(self).bytes@, *old(self).opts, old(self).pos as int, Seq::empty()) matches PRes::Fail(k, p)
                    && err_is(e, k, p),
            },
        decreases old(self).bytes@.len() - old(self).pos, 1int,
    {
        let ghost b = self.bytes@;
        let ghost o = *self.opts;
        let ghost pos0 = self.pos as int;
        let len = self.bytes.len();
        let mut branches: Vec<Vec<Node>> = Vec::new();
        assert(branches_view(branches@) =~= Seq::<Seq<SNode>>::empty());
        loop
            invariant_except_break
                ext_branches(b, o, self.pos as int, branches_view(branches@)) == ext_branches(
                    b,
                    o,
                    pos0,
                    Seq::empty(),
                ),
            invariant
                self.bytes == old(self).bytes,
                self.opts == old(self).opts,
                b == self.bytes@,
                o == *self.opts,
                len == b.len(),
                pos0 == old(self).pos,
                pos0 <= self.pos <= len,
            ensures
                ext_branches(b, o, pos0, Seq::empty()) == PRes::Done(
                    branches_view(branches@),
                    self.pos as int,
                ),
            decreases len - self.pos,
        {
            let nodes = match self.parse_seq(Stop::ExtglobPipeOrClose) {
                Ok(v) => v,
                Err(e) => return Err(e),
            };
            proof {
                lemma_branches_view_push(branches@, nodes);
            }
            branches.push(nodes);
            if self.pos < len && self.bytes[self.pos] == 124u8 {
                self.pos = self.pos + 1;
            } else if self.pos < len && self.bytes[self.pos] == 41u8 {
                self.pos = self.pos + 1;
                break;
            } else {
                return Err(make_err(PErr::UnterminatedExtglob, self.pos));
            }
        }
        Ok(branches)
    }

    /// Parses a brace group whose `{` is at the current position; `None` when the text
    /// does not form one, with the position left where it was.
    fn parse_brace(&mut self, depth: u8) -> (r: ParseResult<Option<Node>>)
        requires
            old(self).pos < old(self).bytes@.len(),
            old(self).bytes@[old(self).pos as int] == 123u8,
        ensures
            final(self).bytes == old(self).bytes,
            final(self).opts == old(self).opts,
            old(self).pos <= final(self).pos <= final(self).bytes@.len(),
            match r {
                Ok(Some(n)) => brace_spec(old(self).bytes@, *old(self).opts, old(self).pos as int, depth as int)
                    == PRes::Done(Some(node_view(n)), final(self).pos as int)
                    && old(self).pos < final(self).pos,
                Ok(None) => brace_spec(old(self).bytes@, *old(self).opts, old(self).pos as int, depth as int)
                    == PRes::Done(None::<SNode>, old(self).pos as int) && final(self).pos == old(self).pos,
                Err(e) => brace_spec(old(self).bytes@, *old(self).opts, old(self).pos as int, depth as int) matches PRes::Fail(k, p)
                    && err_is(e, k, p),
            },
        decreases old(self).bytes@.len() - old(self).pos - 1, 2int,
    {
        let ghost b = self.bytes@;
        let ghost o = *self.opts;
        let len = self.bytes.len();
        let start = self.pos;
        if depth >= self.opts.max_brace_depth {
            return Err(make_err(PErr::BraceDepth, start));
        }
        if !brace_balanced(&self.bytes[start..len]) {
            return Ok(None);
        }
        self.pos = start + 1;
        let mut branches: Vec<Vec<Node>> = Vec::new();
        assert(branches_view(branches@) =~= Seq::<Seq<SNode>>::empty());
        loop
            invariant_except_break
                brace_branches(b, o, start as int, self.pos as int, branches_view(branches@))
                    == brace_branches(b, o, start as int, start + 1, Seq::empty()),
            invariant
                self.bytes == old(self).bytes,
                self.opts == old(self).opts,
                b == self.bytes@,
                o == *self.opts,
                len == b.len(),
                start == old(self).pos,
                start < len,
                b[start as int] == 123u8,
                start < self.pos <= len,
                brace_spec(b, o, start as int, depth as int) == brace_branches(
                    b,
                    o,
                    start as int,
                    start + 1,
                    Seq::empty(),
                ),
            ensures
                brace_branches(b, o, start as int, start + 1, Seq::empty()) == PRes::Done(
                    Some(make_brace(branches_view(branches@))),
                    self.pos as int,
                ),
                branches@.len() >= 1,
            decreases len - self.pos,
        {
            let nodes = match self.parse_seq(Stop::BraceCommaOrClose) {
                Ok(v) => v,
                Err(e) => return Err(e),
            };
            proof {
                lemma_branches_view_push(branches@, nodes);
            }
            branches.push(nodes);
            if self.pos < len && self.bytes[self.pos] == 44u8 {
                self.pos = self.pos + 1;
            } else if self.pos < len && self.bytes[self.pos] == 125u8 {
                self.pos = self.pos + 1;
                break;
            } else {
                self.pos = start;
                return Ok(None);
            }
        }
        proof {
            lemma_branches_view_len(branches@);
        }
        if branches.len() == 1 {
            let ghost only_view = branches_view(branches@)[0];
            let mut only = branches.pop().unwrap();
            let mut open: Vec<u8> = Vec::new();
            open.push(123u8);
            let mut close: Vec<u8> = Vec::new();
            close.push(125u8);
            let mut out: Vec<Node> = Vec::new();
            assert(nodes_view(out@) =~= Seq::<SNode>::empty());
            push_node(&mut out, Node::Literal(open));
            let ghost before = out@;
            let ghost only_nodes = only@;
            out.append(&mut only);
            proof {
                lemma_nodes_view_concat(before, only_nodes);
            }
            push_node(&mut out, Node::Literal(close));
            let mut single: Vec<Vec<Node>> = Vec::new();
            proof {
                lemma_branches_view_push(single@, out);
                assert(single@.push(out) =~= seq![out]);
                assert(branches_view(Seq::<Vec<Node>>::empty()) =~= Seq::<Seq<SNode>>::empty());
                assert(nodes_view(out@) =~= seq![SNode::Literal(seq![123u8])] + only_view + seq![SNode::Literal(seq![125u8])]);
            }
            single.push(out);
            return Ok(Some(Node::Brace(single)));
        }
        Ok(Some(Node::Brace(branches)))
    }

    /// Parses pattern elements from the current position up to `stop` or the end.
    fn parse_seq(&mut self, stop: Stop) -> (r: ParseResult<Vec<Node>>)
        requires
            old(self).pos <= old(self).bytes@.len(),
        ensures
            final(self).bytes == old(self).bytes,
            final(self).opts == old(self).opts,
            old(self).pos <= final(self).pos <= final(self).bytes@.len(),
            seq_res(
                r,
                seq_spec(
                    old(self).bytes@,
                    *old(self).opts,
                    old(self).pos as int,
                    stop,
                    Seq::empty(),
                    Seq::empty(),
                ),
                final(self).pos as int,
            ),
        decreases old(self).bytes@.len() - old(self).pos, 0int,
    {
        let ghost b = self.bytes@;
        let ghost o = *self.opts;
        let ghost pos0 = self.pos as int;
        let len = self.bytes.len();
        let mut out: Vec<Node> = Vec::new();
        let mut lit: Vec<u8> = Vec::new();
        assert(nodes_view(out@) =~= Seq::<SNode>::empty());
        loop
            invariant
                self.bytes == old(self).bytes,
                self.opts == old(self).opts,
                b == self.bytes@,
                o == *self.opts,
                len == b.len(),
                pos0 == old(self).pos,
                pos0 <= self.pos <= len,
                seq_spec(b, o, self.pos as int, stop, lit@, nodes_view(out@)) == seq_spec(
                    b,
                    o,
                    pos0,
                    stop,
                    Seq::empty(),
                    Seq::empty(),
                ),
            ensures
                self.pos >= len || is_stop(stop, b[self.pos as int]),
            decreases len - self.pos,
        {
            if self.pos >= len {
                break;
            }
            let c = self.bytes[self.pos];
            if stops_at(stop, c) {
                break;
            }
            if c == 92u8 {
                if self.pos + 1 < len {
                    let n = self.bytes[self.pos + 1];
                    lit.push(esc_byte(n));
                    self.pos = self.pos + 2;
                } else {
                    lit.push(92u8);
                    self.pos = self.pos + 1;
                }
            } else if c == 47u8 {
                flush_lit(&mut lit, &mut out);
                push_node(&mut out, Node::Sep);
                self.pos = self.pos + 1;
            } else if (c == 63u8 || c == 42u8 || c == 43u8 || c == 64u8 || c == 33u8)
                && !self.opts.noextglob && self.pos + 1 < len && self.bytes[self.pos + 1] == 40u8 {
                flush_lit(&mut lit, &mut out);
                self.pos = self.pos + 2;
                let branches = match self.parse_extglob_branches() {
                    Ok(v) => v,
                    Err(e) => return Err(e),
                };
                push_node(&mut out, Node::Extglob { kind: ext_kind(c), branches });
            } else if c == 63u8 {
                flush_lit(&mut lit, &mut out);
                push_node(&mut out, Node::AnyChar);
                self.pos = self.pos + 1;
            } else if c == 42u8 {
                flush_lit(&mut lit, &mut out);
                let run_start = self.pos + 1;
                let q = star_end(self.bytes, run_start);
                proof {
                    lemma_star_run(b, run_start as int);
                }
                self.pos = q;
                if q > run_start && !self.opts.noglobstar {
                    push_node(&mut out, Node::Globstar);
                } else {
                    push_node(&mut out, Node::Star);
                }
            } else if c == 91u8 && !self.opts.nobracket {
                flush_lit(&mut lit, &mut out);
                match self.parse_class() {
                    Err(e) => return Err(e),
                    Ok(Some(cls)) => push_node(&mut out, Node::Class(cls)),
                    Ok(None) => {
                        lit.push(91u8);
                        self.pos = self.pos + 1;
                        assert(lit@ =~= seq![91u8]);
                    },
                }
            } else if c == 123u8 && !self.opts.nobrace {
                flush_lit(&mut lit, &mut out);
                match self.parse_brace(0) {
                    Err(e) => return Err(e),
                    Ok(Some(n)) => push_node(&mut out, n),
                    Ok(None) => {
                        lit.push(123u8);
                        self.pos = self.pos + 1;
                        assert(lit@ =~= seq![123u8]);
                    },
                }
            } else {
                lit.push(c);
                self.pos = self.pos + 1;
            }
        }
        flush_lit(&mut lit, &mut out);
        Ok(out)
    }
}

fn stops_at(stop: Stop, c: u8) -> (r: bool)
    ensures
        r == is_stop(stop, c),
{
    match stop {
        Stop::Eof => false,
        Stop::BraceCommaOrClose => c == 44u8 || c == 125u8,
        Stop::ExtglobPipeOrClose => c == 124u8 || c == 41u8,
    }
}

/// The first index at or after `i` that does not hold a `*`.
fn star_end(b: &[u8], i: usize) -> (r: usize)
    requires
        i <= b@.len(),
    ensures
        r == star_run(b@, i as int),
{
    let mut j = i;
    while j < b.len() && b[j] == 42u8
        invariant
            i <= j <= b@.len(),
            star_run(b@, j as int) == star_run(b@, i as int),
        decreases b@.len() - j,
    {
        j = j + 1;
    }
    j
}

/// Whether the text `s`, which starts at a `{`, closes the group with a `,` at its own
/// depth inside it.
fn brace_balanced(s: &[u8]) -> (r: bool)
    requires
        s@.len() > 0,
        s@[0] == 123u8,
    ensures
        r == brace_balanced_spec(s@),
{
    let len = s.len();
    let mut depth: usize = 0;
    let mut i: usize = 0;
    let mut in_class = false;
    let mut has = false;
    while i < len
        invariant
            len == s@.len(),
            s@[0] == 123u8,
            i <= len,
            bb_loop(s@, i as int, depth as int, in_class, has) == brace_balanced_spec(s@),
            (i == 0 && depth == 0 && !in_class) || (i >= 1 && 1 <= depth <= i),
        decreases len - i,
    {
        let c = s[i];
        if c == 92u8 {
            if i + 1 >= len {
                assert(!bb_loop(s@, i + 2, depth as int, in_class, has));
                return false;
            }
            i = i + 2;
        } else if c == 91u8 && !in_class {
            in_class = true;
            i = i + 1;
        } else if c == 93u8 && in_class {
            in_class = false;
            i = i + 1;
        } else if c == 123u8 && !in_class {
            depth = depth + 1;
            i = i + 1;
        } else if c == 125u8 && !in_class {
            depth = depth - 1;
            if depth == 0 {
                return has;
            }
            i = i + 1;
        } else if c == 44u8 && !in_class && depth == 1 {
            has = true;
            i = i + 1;
        } else {
            i = i + 1;
        }
    }
    false
}

/// An element holds a `/`, itself or inside a group.
pub open spec fn node_slash(n: SNode) -> bool
    decreases n,
{
    match n {
        SNode::Sep => true,
        SNode::Brace(brs) => branches_slash(brs),
        SNode::Extglob(_, brs) => branches_slash(brs),
        _ => false,
    }
}

/// One of the branches holds a `/`.
pub open spec fn branches_slash(brs: Seq<Seq<SNode>>) -> bool
    decreases brs,
{
    if brs.len() == 0 {
        false
    } else {
        branches_slash(brs.subrange(0, brs.len() - 1)) || seq_slash(brs[brs.len() - 1])
    }
}

/// One of the elements holds a `/`.
pub open spec fn seq_slash(s: Seq<SNode>) -> bool
    decreases s,
{
    if s.len() == 0 {
        false
    } else {
        seq_slash(s.subrange(0, s.len() - 1)) || node_slash(s[s.len() - 1])
    }
}

/// The end of the leading run of `!` that negate a pattern, from `i` on.
pub open spec fn bang_run(b: Seq<u8>, i: int) -> int
    decreases b.len() - i,
{
    if 0 <= i < b.len() && b[i] == 33u8 && byte_at(b, i + 1) != Some(40u8) {
        bang_run(b, i + 1)
    } else {
        i
    }
}

/// Where the pattern proper starts, after the negating `!`s.
pub open spec fn neg_end(b: Seq<u8>, o: MatchOptions) -> int {
    if o.nonegate {
        0
    } else {
        bang_run(b, 0)
    }
}

/// A whole pattern: whether it is negated and its elements.
pub open spec fn pattern_spec(b: Seq<u8>, o: MatchOptions) -> PRes<(bool, Seq<SNode>)> {
    if b.len() > o.max_length {
        PRes::Fail(PErr::TooLong, 0)
    } else {
        let e = neg_end(b, o);
        match seq_spec(b, o, e, Stop::Eof, Seq::empty(), Seq::empty()) {
            PRes::Done(nodes, q) => PRes::Done((e % 2 == 1, nodes), q),
            PRes::Fail(k, p) => PRes::Fail(k, p),
        }
    }
}

fn nodes_have_slash(nodes: &[Node]) -> (r: bool)
    ensures
        r == seq_slash(nodes_view(nodes@)),
    decreases nodes@,
{
    let ghost v = nodes_view(nodes@);
    proof {
        lemma_nodes_view_len(nodes@);
        assert(v.subrange(0, 0) =~= Seq::<SNode>::empty());
    }
    let mut found = false;
    let mut i: usize = 0;
    while i < nodes.len()
        invariant
            i <= nodes@.len(),
            v == nodes_view(nodes@),
            v.len() == nodes@.len(),
            forall|j: int| 0 <= j < nodes@.len() ==> #[trigger] v[j] == node_view(nodes@[j]),
            found == seq_slash(v.subrange(0, i as int)),
        decreases nodes@.len() - i,
    {
        let here = if found {
            true
        } else {
            node_has_slash(&nodes[i])
        };
        proof {
            assert(v.subrange(0, i + 1).subrange(0, i as int) =~= v.subrange(0, i as int));
        }
        found = here;
        i = i + 1;
    }
    proof {
        assert(v.subrange(0, i as int) =~= v);
    }
    found
}

fn node_has_slash(n: &Node) -> (r: bool)
    ensures
        r == node_slash(node_view(*n)),
    decreases *n,
{
    match n {
        Node::Sep => true,
        Node::Brace(brs) => branches_have_slash(brs.as_slice()),
        Node::Extglob { branches, .. } => branches_have_slash(branches.as_slice()),
        _ => false,
    }
}

fn branches_have_slash(brs: &[Vec<Node>]) -> (r: bool)
    ensures
        r == branches_slash(branches_view(brs@)),
    decreases brs@,
{
    let ghost v = branches_view(brs@);
    proof {
        lemma_branches_view_len(brs@);
        assert(v.subrange(0, 0) =~= Seq::<Seq<SNode>>::empty());
    }
    let mut found = false;
    let mut i: usize = 0;
    while i < brs.len()
        invariant
            i <= brs@.len(),
            v == branches_view(brs@),
            v.len() == brs@.len(),
            forall|j: int| 0 <= j < brs@.len() ==> #[trigger] v[j] == nodes_view(brs@[j]@),
            found == branches_slash(v.subrange(0, i as int)),
        decreases brs@.len() - i,
    {
        let here = if found {
            true
        } else {
            nodes_have_slash(brs[i].as_slice())
        };
        proof {
            assert(v.subrange(0, i + 1).subrange(0, i as int) =~= v.subrange(0, i as int));
        }
        found = here;
        i = i + 1;
    }
    proof {
        assert(v.subrange(0, i as int) =~= v);
    }
    found
}

/// Parses a glob pattern under `opts`.
pub fn parse(input: &str, opts: &MatchOptions) -> (r: ParseResult<Pattern>)
    ensures
        match r {
            Ok(p) => pattern_spec(input.spec_bytes(), *opts) matches PRes::Done(v, _) && v == (
                p.negated,
                nodes_view(p.nodes@),
            ) && p.has_slash == seq_slash(nodes_view(p.nodes@)),
            Err(e) => pattern_spec(input.spec_bytes(), *opts) matches PRes::Fail(k, q) && err_is(
                e,
                k,
                q,
            ),
        },
{
    if input.len() > opts.max_length {
        return Err(make_err(PErr::TooLong, 0));
    }
    let bytes = input.as_bytes();
    let ghost b = bytes@;
    let len = bytes.len();
    let mut p = Parser { bytes, pos: 0, opts };
    let mut negated = false;
    if !opts.nonegate {
        while p.pos < len && p.bytes[p.pos] == 33u8 && !(p.pos + 1 < len && p.bytes[p.pos + 1]
            == 40u8)
            invariant
                p.bytes == bytes,
                p.opts == opts,
                b == bytes@,
                len == b.len(),
                p.pos <= len,
                bang_run(b, p.pos as int) == bang_run(b, 0),
                negated == (p.pos % 2 == 1),
            decreases len - p.pos,
        {
            negated = !negated;
            p.pos = p.pos + 1;
        }
    }
    let nodes = match p.parse_seq(Stop::Eof) {
        Ok(v) => v,
        Err(e) => return Err(e),
    };
    let has_slash = nodes_have_slash(nodes.as_slice());
    Ok(Pattern { nodes, negated, has_slash })
}

} // verus!
