use vstd::prelude::*;

use crate::ast::{class_set, lemma_nodes_view_len, lemma_branches_view_len, node_view, nodes_view, branches_view, ExtKind, Node, SNode};
use crate::options::{MatchOptions, Mode};
use crate::parse::{err_is, parse, pattern_spec, seq_slash, PErr, PRes, ParseError};
use vstd::string::StringSliceAdditionalSpecFns;
use crate::util::{ascii_lower, lower_spec, pack_le, pack_spec, ByteClass};

verus! {

/// One instruction of a compiled pattern.
#[derive(Clone, Copy, Debug)]
pub enum Instr {
    Literal { off: u32, len: u32 },
    AnyChar,
    Star,
    Globstar,
    Sep,
    Class(u32),
    BraceOpen { alts: (u32, u32), end: u32 },
    BraceJumpEnd(u32),
    ExtglobOpen { kind: ExtKind, alts: (u32, u32), end: u32 },
    ExtglobJumpEnd(u32),
    BraceEnd,
    ExtglobEnd,
}

/// One extension of a `DottedExtensions` shape: a pool range and its bytes packed
/// little-endian into a word.
#[derive(Clone, Copy, Debug)]
pub struct ExtEntry {
    pub off: u32,
    pub len: u32,
    pub packed: u64,
}

/// A recognised pattern shape with a dedicated matcher.
#[derive(Clone, Copy, Debug)]
pub enum FastShape {
    NoShape,
    Literal,
    PrefixStar { prefix_len: u32 },
    PrefixStarSuffix { prefix_len: u32, suffix_off: u32, suffix_len: u32 },
    GlobstarLiteral { suffix_off: u32, suffix_len: u32 },
    GlobstarStarSuffix { suffix_off: u32, suffix_len: u32 },
    GlobstarStarSuffixes { suffixes_off: u32, suffixes_len: u32 },
    DottedExtensions { exts_off: u32, exts_len: u32 },
    EndsWithLiteral { tail_off: u32, tail_len: u32, tail_packed: u64 },
}

/// Which matcher a program runs.
#[derive(Clone, Copy, Debug, PartialEq, Eq, Structural)]
pub enum MatcherFn {
    AnchoredDispatch,
    AnywhereDispatch,
    Literal,
    PrefixStar,
    PrefixStarSuffix,
    GlobstarLiteral,
    GlobstarStarSuffix,
    GlobstarStarSuffixes,
    DottedExtensions,
    EndsWithLiteral,
    BasenamePosixThenBase,
    BasenameWindowsThenBase,
    NegateThenBase,
}

/// Whether `m` matches the input itself (rather than wrapping another matcher).
pub open spec fn is_base_matcher(m: MatcherFn) -> bool {
    !(m is BasenamePosixThenBase || m is BasenameWindowsThenBase || m is NegateThenBase)
}

/// A compiled pattern.
#[derive(Clone, Debug)]
pub struct Program {
    pub code: Vec<Instr>,
    pub pool: Vec<u8>,
    pub classes: Vec<ByteClass>,
    pub alt_table: Vec<u32>,
    pub suffix_table: Vec<(u32, u32)>,
    pub ext_table: Vec<ExtEntry>,
    pub negated: bool,
    pub has_slash: bool,
    pub prefilter: Option<(u32, u32)>,
    pub shape: FastShape,
    pub matcher_fn: MatcherFn,
    pub base_matcher_fn: MatcherFn,
}

/// A pattern compiled together with its options.
#[derive(Clone, Debug)]
pub struct CompiledGlob {
    pub program: Program,
    pub opts: MatchOptions,
}

/// `off .. off + len` is a range of the pool.
pub open spec fn in_pool(p: Program, off: u32, len: u32) -> bool {
    off + len <= p.pool@.len()
}

pub open spec fn instr_ok(p: Program, i: Instr) -> bool {
    match i {
        Instr::Literal { off, len } => in_pool(p, off, len),
        Instr::Class(idx) => idx < p.classes@.len(),
        Instr::BraceOpen { alts, end } => alts.0 <= alts.1 <= p.alt_table@.len(),
        Instr::ExtglobOpen { kind, alts, end } => alts.0 <= alts.1 <= p.alt_table@.len(),
        _ => true,
    }
}

pub open spec fn shape_ok(p: Program) -> bool {
    match p.shape {
        FastShape::PrefixStar { prefix_len } => prefix_len <= p.pool@.len(),
        FastShape::PrefixStarSuffix { prefix_len, suffix_off, suffix_len } => prefix_len
            <= p.pool@.len() && in_pool(p, suffix_off, suffix_len),
        FastShape::GlobstarLiteral { suffix_off, suffix_len } => in_pool(p, suffix_off, suffix_len),
        FastShape::GlobstarStarSuffix { suffix_off, suffix_len } => in_pool(
            p,
            suffix_off,
            suffix_len,
        ),
        FastShape::GlobstarStarSuffixes { suffixes_off, suffixes_len } => suffixes_off
            + suffixes_len <= p.suffix_table@.len(),
        FastShape::DottedExtensions { exts_off, exts_len } => exts_off + exts_len
            <= p.ext_table@.len(),
        FastShape::EndsWithLiteral { tail_off, tail_len, tail_packed } => in_pool(
            p,
            tail_off,
            tail_len,
        ),
        _ => true,
    }
}

impl Program {
    /// The program's tables are consistent: every offset and index it holds is in range.
    pub open spec fn wf(self) -> bool {
        &&& self.code@.len() <= u32::MAX
        &&& forall|pc: int| 0 <= pc < self.code@.len() ==> instr_ok(self, #[trigger] self.code@[pc])
        &&& forall|i: int|
            0 <= i < self.suffix_table@.len() ==> in_pool(
                self,
                (#[trigger] self.suffix_table@[i]).0,
                self.suffix_table@[i].1,
            )
        &&& forall|i: int|
            0 <= i < self.ext_table@.len() ==> in_pool(
                self,
                (#[trigger] self.ext_table@[i]).off,
                self.ext_table@[i].len,
            )
        &&& (self.prefilter matches Some(pf) ==> in_pool(self, pf.0, pf.1))
        &&& shape_ok(self)
        &&& is_base_matcher(self.base_matcher_fn)
    }

    /// The pool bytes `off .. off + len`.
    pub open spec fn pool_range(self, off: u32, len: u32) -> Seq<u8> {
        self.pool@.subrange(off as int, off + len)
    }
}

/// What code emission has produced so far: instructions, literal pool, classes, the
/// alternative table and the longest top-level literal.
pub struct Emission {
    pub code: Seq<Instr>,
    pub pool: Seq<u8>,
    pub classes: Seq<Set<u8>>,
    pub alts: Seq<u32>,
    pub best: Option<(u32, u32)>,
}

pub open spec fn no_emission() -> Emission {
    Emission {
        code: Seq::empty(),
        pool: Seq::empty(),
        classes: Seq::empty(),
        alts: Seq::empty(),
        best: None,
    }
}

pub open spec fn push_code(st: Emission, i: Instr) -> Emission {
    Emission { code: st.code.push(i), pool: st.pool, classes: st.classes, alts: st.alts, best: st.best }
}

pub open spec fn lowered(b: Seq<u8>) -> Seq<u8> {
    b.map_values(|x: u8| lower_spec(x))
}

/// A literal: its bytes (lower-cased under `nocase`) go to the pool; at the top level, a
/// literal longer than every earlier one becomes the best literal.
pub open spec fn emit_lit(st: Emission, b: Seq<u8>, top: bool, nocase: bool) -> Emission {
    let off = st.pool.len() as u32;
    let len = b.len() as u32;
    let better = top && match st.best {
        None => true,
        Some(bl) => len > bl.1,
    };
    Emission {
        code: st.code.push(Instr::Literal { off, len }),
        pool: st.pool + (if nocase {
            lowered(b)
        } else {
            b
        }),
        classes: st.classes,
        alts: st.alts,
        best: if better {
            Some((off, len))
        } else {
            st.best
        },
    }
}

pub open spec fn jump_instr(ext: bool, t: u32) -> Instr {
    if ext {
        Instr::ExtglobJumpEnd(t)
    } else {
        Instr::BraceJumpEnd(t)
    }
}

pub open spec fn end_instr(ext: bool) -> Instr {
    if ext {
        Instr::ExtglobEnd
    } else {
        Instr::BraceEnd
    }
}

pub open spec fn open_instr(kind: Option<ExtKind>, a0: u32, a1: u32, e: u32) -> Instr {
    match kind {
        Some(k) => Instr::ExtglobOpen { kind: k, alts: (a0, a1), end: e },
        None => Instr::BraceOpen { alts: (a0, a1), end: e },
    }
}

/// Sets each instruction at the positions `js`, in order, to `j`.
pub open spec fn patch_jumps(code: Seq<Instr>, js: Seq<int>, j: Instr) -> Seq<Instr>
    decreases js.len(),
{
    if js.len() == 0 {
        code
    } else {
        patch_jumps(code, js.subrange(0, js.len() - 1), j).update(js[js.len() - 1], j)
    }
}

/// Closes a group opened at the end of `st`, whose branches left `s2` with jump
/// placeholders at `js` and started at `starts`: appends the end marker, appends the
/// branches' starts to the alternative table as one range, and fills in that range and the
/// group's end in its opening instruction and jumps.
pub open spec fn close_group(
    st: Emission,
    s2: Emission,
    js: Seq<int>,
    starts: Seq<u32>,
    kind: Option<ExtKind>,
) -> Emission {
    let open_pc = st.code.len() as int;
    let ext = kind is Some;
    let s3 = push_code(s2, end_instr(ext));
    let e = s3.code.len() as u32;
    Emission {
        code: patch_jumps(
            s3.code.update(
                open_pc,
                open_instr(kind, s2.alts.len() as u32, (s2.alts.len() + starts.len()) as u32, e),
            ),
            js,
            jump_instr(ext, e),
        ),
        pool: s3.pool,
        classes: s3.classes,
        alts: s3.alts + starts,
        best: s3.best,
    }
}

/// Emits the elements `s` in order.
pub open spec fn emit_seq(st: Emission, s: Seq<SNode>, top: bool, nocase: bool) -> Emission
    decreases s,
{
    if s.len() == 0 {
        st
    } else {
        emit_node(emit_seq(st, s.subrange(0, s.len() - 1), top, nocase), s[s.len() - 1], top, nocase)
    }
}

/// Emits the branches `brs`, each followed by a jump placeholder; also the positions of the
/// placeholders and where each branch starts.
pub open spec fn emit_jumping(st: Emission, brs: Seq<Seq<SNode>>, ext: bool, nocase: bool) -> (
    Emission,
    Seq<int>,
    Seq<u32>,
)
    decreases brs,
{
    if brs.len() == 0 {
        (st, Seq::empty(), Seq::empty())
    } else {
        let prev = emit_jumping(st, brs.subrange(0, brs.len() - 1), ext, nocase);
        let s2 = emit_seq(prev.0, brs[brs.len() - 1], false, nocase);
        (
            push_code(s2, jump_instr(ext, 0)),
            prev.1.push(s2.code.len() as int),
            prev.2.push(prev.0.code.len() as u32),
        )
    }
}

/// Emits the branches of a group: all but the last followed by a jump placeholder; also the
/// positions of the placeholders and where each branch starts.
pub open spec fn emit_branches(st: Emission, brs: Seq<Seq<SNode>>, ext: bool, nocase: bool) -> (
    Emission,
    Seq<int>,
    Seq<u32>,
)
    decreases brs,
{
    if brs.len() == 0 {
        (st, Seq::empty(), Seq::empty())
    } else {
        let prev = emit_jumping(st, brs.subrange(0, brs.len() - 1), ext, nocase);
        (
            emit_seq(prev.0, brs[brs.len() - 1], false, nocase),
            prev.1,
            prev.2.push(prev.0.code.len() as u32),
        )
    }
}

/// Emits one element.
pub open spec fn emit_node(st: Emission, n: SNode, top: bool, nocase: bool) -> Emission
    decreases n,
{
    match n {
        SNode::Literal(b) => emit_lit(st, b, top, nocase),
        SNode::Sep => push_code(st, Instr::Sep),
        SNode::AnyChar => push_code(st, Instr::AnyChar),
        SNode::Star => push_code(st, Instr::Star),
        SNode::Globstar => push_code(st, Instr::Globstar),
        SNode::Class(m) => Emission {
            code: st.code.push(Instr::Class(st.classes.len() as u32)),
            pool: st.pool,
            classes: st.classes.push(m),
            alts: st.alts,
            best: st.best,
        },
        SNode::Brace(brs) => {
            let body = emit_branches(push_code(st, open_instr(None, 0, 0, 0)), brs, false, nocase);
            close_group(st, body.0, body.1, body.2, None)
        },
        SNode::Extglob(k, brs) => {
            let body = emit_branches(
                push_code(st, open_instr(Some(k), 0, 0, 0)),
                brs,
                true,
                nocase,
            );
            close_group(st, body.0, body.1, body.2, Some(k))
        },
    }
}

/// Emits a program from parsed elements.
struct Compiler<'a> {
    code: Vec<Instr>,
    pool: Vec<u8>,
    classes: Vec<ByteClass>,
    alt_table: Vec<u32>,
    opts: &'a MatchOptions,
    best_literal: Option<(u32, u32)>,
}

pub open spec fn classes_view(c: Seq<ByteClass>) -> Seq<Set<u8>> {
    c.map_values(|b: ByteClass| class_set(b))
}

pub open spec fn positions(js: Seq<usize>) -> Seq<int> {
    js.map_values(|j: usize| j as int)
}

/// Every table is small enough for its offsets and indices to fit in `u32`.
pub open spec fn small_sizes(code: int, pool: int, classes: int, alts: int) -> bool {
    &&& code <= 0xFFFF_FFFF
    &&& pool <= 0xFFFF_FFFF
    &&& classes <= 0xFFFF_FFFF
    &&& alts <= 0xFFFF_FFFF
}

/// The offsets and indices of `i` are in range of tables of the given sizes.
pub open spec fn fits_tables(i: Instr, pool: int, classes: int, alts: int) -> bool {
    match i {
        Instr::Literal { off, len } => off + len <= pool,
        Instr::Class(idx) => idx < classes,
        Instr::BraceOpen { alts: a, end } => a.0 <= a.1 <= alts,
        Instr::ExtglobOpen { kind, alts: a, end } => a.0 <= a.1 <= alts,
        _ => true,
    }
}

/// Every offset and index in `code` is in range of tables of the given sizes.
pub open spec fn code_ok(code: Seq<Instr>, pool: int, classes: int, alts: int) -> bool {
    forall|pc: int| 0 <= pc < code.len() ==> fits_tables(#[trigger] code[pc], pool, classes, alts)
}

proof fn lemma_code_ok_update(code: Seq<Instr>, i: int, ins: Instr, pool: int, classes: int, alts: int)
    requires
        code_ok(code, pool, classes, alts),
        fits_tables(ins, pool, classes, alts),
        0 <= i < code.len(),
    ensures
        code_ok(code.update(i, ins), pool, classes, alts),
{
    let c2 = code.update(i, ins);
    assert forall|pc: int| 0 <= pc < c2.len() implies fits_tables(#[trigger] c2[pc], pool, classes, alts) by {
        if pc == i {
        } else {
            assert(c2[pc] == code[pc]);
        }
    }
}

impl<'a> Compiler<'a> {
    spec fn small(&self) -> bool {
        small_sizes(
            self.code@.len() as int,
            self.pool@.len() as int,
            self.classes@.len() as int,
            self.alt_table@.len() as int,
        )
    }

    spec fn ok(&self) -> bool {
        &&& code_ok(
            self.code@,
            self.pool@.len() as int,
            self.classes@.len() as int,
            self.alt_table@.len() as int,
        )
        &&& (self.best_literal matches Some(b) ==> b.0 + b.1 <= self.pool@.len())
    }

    /// Within the size bound, the tables are consistent.
    spec fn good(&self) -> bool {
        self.small() ==> self.ok()
    }

    /// The tables only grow.
    spec fn grows_from(&self, old: &Self) -> bool {
        &&& self.code@.len() >= old.code@.len()
        &&& self.pool@.len() >= old.pool@.len()
        &&& self.classes@.len() >= old.classes@.len()
        &&& self.alt_table@.len() >= old.alt_table@.len()
    }

    spec fn em(&self) -> Emission {
        Emission {
            code: self.code@,
            pool: self.pool@,
            classes: classes_view(self.classes@),
            alts: self.alt_table@,
            best: self.best_literal,
        }
    }

    fn emit_seq(&mut self, nodes: &[Node], top: bool)
        ensures
            final(self).em() == emit_seq(old(self).em(), nodes_view(nodes@), top, old(self).opts.nocase),
            final(self).opts == old(self).opts,
            final(self).code@.len() >= old(self).code@.len(),
            final(self).grows_from(&*old(self)),
            old(self).good() ==> final(self).good(),
        decreases nodes@,
    {
        let ghost v = nodes_view(nodes@);
        proof {
            lemma_nodes_view_len(nodes@);
            assert(v.subrange(0, 0) =~= Seq::<SNode>::empty());
        }
        let mut i: usize = 0;
        while i < nodes.len()
            invariant
                self.opts == old(self).opts,
                i <= nodes@.len(),
                v == nodes_view(nodes@),
                v.len() == nodes@.len(),
                forall|j: int| 0 <= j < nodes@.len() ==> #[trigger] v[j] == node_view(nodes@[j]),
                self.em() == emit_seq(old(self).em(), v.subrange(0, i as int), top, self.opts.nocase),
                self.code@.len() >= old(self).code@.len(),
                self.grows_from(&*old(self)),
                old(self).good() ==> self.good(),
            decreases nodes@.len() - i,
        {
            self.emit_node(&nodes[i], top);
            proof {
                assert(v.subrange(0, i + 1).subrange(0, i as int) =~= v.subrange(0, i as int));
            }
            i = i + 1;
        }
        proof {
            assert(v.subrange(0, i as int) =~= v);
        }
    }

    fn emit_node(&mut self, n: &Node, top: bool)
        ensures
            final(self).em() == emit_node(old(self).em(), node_view(*n), top, old(self).opts.nocase),
            final(self).opts == old(self).opts,
            final(self).code@.len() >= old(self).code@.len(),
            final(self).grows_from(&*old(self)),
            old(self).good() ==> final(self).good(),
        decreases *n,
    {
        match n {
            Node::Literal(b) => {
                let off = self.pool.len() as u32;
                if self.opts.nocase {
                    let mut k: usize = 0;
                    while k < b.len()
                        invariant
                            self.code == old(self).code,
                            self.classes == old(self).classes,
                            self.alt_table == old(self).alt_table,
                            self.best_literal == old(self).best_literal,
                            self.opts == old(self).opts,
                            k <= b@.len(),
                            self.pool@ == old(self).pool@ + lowered(b@.subrange(0, k as int)),
                        decreases b@.len() - k,
                    {
                        let x = ascii_lower(b[k]);
                        self.pool.push(x);
                        proof {
                            assert(lowered(b@.subrange(0, k + 1)) =~= lowered(b@.subrange(0, k as int)).push(x));
                        }
                        k = k + 1;
                    }
                    proof {
                        assert(b@.subrange(0, k as int) =~= b@);
                    }
                } else {
                    self.pool.extend_from_slice(b.as_slice());
                    proof {
                        assert(self.pool@ =~= old(self).pool@ + b@);
                    }
                }
                let len = b.len() as u32;
                let better = top && match self.best_literal {
                    None => true,
                    Some(bl) => len > bl.1,
                };
                if better {
                    self.best_literal = Some((off, len));
                }
                self.code.push(Instr::Literal { off, len });
            },
            Node::Sep => self.code.push(Instr::Sep),
            Node::AnyChar => self.code.push(Instr::AnyChar),
            Node::Star => self.code.push(Instr::Star),
            Node::Globstar => self.code.push(Instr::Globstar),
            Node::Class(c) => {
                let idx = self.classes.len() as u32;
                self.classes.push(*c);
                self.code.push(Instr::Class(idx));
                proof {
                    assert(classes_view(self.classes@) =~= classes_view(old(self).classes@).push(
                        class_set(*c),
                    ));
                }
            },
            Node::Brace(brs) => self.emit_group(brs.as_slice(), None),
            Node::Extglob { kind, branches } => self.emit_group(branches.as_slice(), Some(*kind)),
        }
    }

    fn emit_group(&mut self, brs: &[Vec<Node>], kind: Option<ExtKind>)
        ensures
            final(self).em() == ({
                let body = emit_branches(
                    push_code(old(self).em(), open_instr(kind, 0, 0, 0)),
                    branches_view(brs@),
                    kind is Some,
                    old(self).opts.nocase,
                );
                close_group(old(self).em(), body.0, body.1, body.2, kind)
            }),
            final(self).opts == old(self).opts,
            final(self).code@.len() >= old(self).code@.len(),
            final(self).grows_from(&*old(self)),
            old(self).good() ==> final(self).good(),
        decreases brs@,
    {
        let ghost nocase = self.opts.nocase;
        let ghost st0 = self.em();
        let ext = kind.is_some();
        let open_pc = self.code.len();
        let placeholder = match kind {
            Some(k) => Instr::ExtglobOpen { kind: k, alts: (0, 0), end: 0 },
            None => Instr::BraceOpen { alts: (0, 0), end: 0 },
        };
        self.code.push(placeholder);
        let ghost st1 = self.em();
        assert(st1 == push_code(st0, open_instr(kind, 0, 0, 0)));
        let ghost bv = branches_view(brs@);
        proof {
            lemma_branches_view_len(brs@);
            assert(bv.subrange(0, 0) =~= Seq::<Seq<SNode>>::empty());
            assert(positions(Seq::<usize>::empty()) =~= Seq::<int>::empty());
        }
        let nb = brs.len();
        let mut jumps: Vec<usize> = Vec::new();
        let mut starts: Vec<u32> = Vec::new();
        let mut i: usize = 0;
        while nb > 0 && i < nb - 1
            invariant
                self.opts == old(self).opts,
                nocase == self.opts.nocase,
                nb == brs@.len(),
                bv == branches_view(brs@),
                bv.len() == brs@.len(),
                forall|j: int| 0 <= j < brs@.len() ==> #[trigger] bv[j] == nodes_view(brs@[j]@),
                i == 0 || i < nb,
                open_pc < self.code@.len(),
                (self.em(), positions(jumps@), starts@) == emit_jumping(st1, bv.subrange(0, i as int), ext, nocase),
                forall|j: int| 0 <= j < jumps@.len() ==> #[trigger] jumps@[j] < self.code@.len(),
                forall|j: int| 0 <= j < jumps@.len() ==> open_pc < #[trigger] jumps@[j],
                self.grows_from(&*old(self)),
                old(self).good() ==> self.good(),
            decreases nb - i,
        {
            let ghost jumps0 = jumps@;
            let ghost starts0 = starts@;
            starts.push(self.code.len() as u32);
            self.emit_seq(brs[i].as_slice(), false);
            let at = self.code.len();
            jumps.push(at);
            if ext {
                self.code.push(Instr::ExtglobJumpEnd(0));
            } else {
                self.code.push(Instr::BraceJumpEnd(0));
            }
            proof {
                assert(bv.subrange(0, i + 1).subrange(0, i as int) =~= bv.subrange(0, i as int));
                assert(positions(jumps@) =~= positions(jumps@.subrange(0, jumps@.len() - 1)).push(at as int));
                assert(jumps@.subrange(0, jumps@.len() - 1) =~= jumps0);
            }
            i = i + 1;
        }
        let ghost jv = positions(jumps@);
        if nb > 0 {
            starts.push(self.code.len() as u32);
            self.emit_seq(brs[nb - 1].as_slice(), false);
            proof {
                assert(bv.subrange(0, nb - 1) == bv.subrange(0, i as int));
            }
        } else {
            proof {
                assert(bv.len() == 0);
            }
        }
        let ghost s2 = self.em();
        assert((s2, jv, starts@) == emit_branches(st1, bv, ext, nocase));
        if ext {
            self.code.push(Instr::ExtglobEnd);
        } else {
            self.code.push(Instr::BraceEnd);
        }
        let end_pc = self.code.len() as u32;
        let ghost s3 = self.em();
        assert(s3 == push_code(s2, end_instr(ext)));
        let alts_start = self.alt_table.len() as u32;
        let mut q: usize = 0;
        while q < starts.len()
            invariant
                q <= starts@.len(),
                self.opts == old(self).opts,
                self.code@ == s3.code,
                self.pool@ == s3.pool,
                classes_view(self.classes@) == s3.classes,
                self.best_literal == s3.best,
                self.alt_table@ == s3.alts + starts@.subrange(0, q as int),
                self.grows_from(&*old(self)),
                old(self).good() ==> self.good(),
            decreases starts@.len() - q,
        {
            let ghost na = self.alt_table@.len() as int;
            let ghost was_good = self.good();
            self.alt_table.push(starts[q]);
            proof {
                assert(self.alt_table@ =~= s3.alts + starts@.subrange(0, q + 1));
                if was_good && self.small() {
                    assert forall|pc: int| 0 <= pc < self.code@.len() implies fits_tables(
                        #[trigger] self.code@[pc],
                        self.pool@.len() as int,
                        self.classes@.len() as int,
                        self.alt_table@.len() as int,
                    ) by {
                        assert(fits_tables(self.code@[pc], self.pool@.len() as int, self.classes@.len() as int, na));
                    }
                }
            }
            q = q + 1;
        }
        proof {
            assert(starts@.subrange(0, q as int) =~= starts@);
        }
        let alts_end = self.alt_table.len() as u32;
        let open = match kind {
            Some(k) => Instr::ExtglobOpen { kind: k, alts: (alts_start, alts_end), end: end_pc },
            None => Instr::BraceOpen { alts: (alts_start, alts_end), end: end_pc },
        };
        assert(open == open_instr(kind, alts_start, alts_end, end_pc));
        let ghost base = self.code@.update(open_pc as int, open);
        self.code.set(open_pc, open);
        let jump = if ext {
            Instr::ExtglobJumpEnd(end_pc)
        } else {
            Instr::BraceJumpEnd(end_pc)
        };
        assert(jump == jump_instr(ext, end_pc));
        proof {
            assert(jv.subrange(0, 0) =~= Seq::<int>::empty());
        }
        let mut k: usize = 0;
        while k < jumps.len()
            invariant
                self.opts == old(self).opts,
                k <= jumps@.len(),
                jv == positions(jumps@),
                self.code@.len() == base.len(),
                forall|j: int| 0 <= j < jumps@.len() ==> #[trigger] jumps@[j] < self.code@.len(),
                self.code@ == patch_jumps(base, jv.subrange(0, k as int), jump),
                jump == jump_instr(ext, end_pc),
                self.pool@ == s3.pool,
                classes_view(self.classes@) == s3.classes,
                self.classes@.len() == old(self).classes@.len() + (s3.classes.len() - classes_view(old(self).classes@).len()),
                self.grows_from(&*old(self)),
                old(self).good() ==> self.good(),
                self.alt_table@ == s3.alts + starts@,
                self.best_literal == s3.best,
            decreases jumps@.len() - k,
        {
            let ghost c0 = self.code@;
            self.code.set(jumps[k], jump);
            proof {
                if old(self).good() && self.small() {
                    lemma_code_ok_update(c0, jumps@[k as int] as int, jump, self.pool@.len() as int, self.classes@.len() as int, self.alt_table@.len() as int);
                }
                assert(jv.subrange(0, k + 1).subrange(0, k as int) =~= jv.subrange(0, k as int));
            }
            k = k + 1;
        }
        proof {
            assert(jv.subrange(0, k as int) =~= jv);
        }
    }
}

/// Total length of the literals `code[start..end]`, or `None` when another instruction
/// stands there.
pub open spec fn lit_run_len(code: Seq<Instr>, start: int, end: int) -> Option<int>
    decreases end - start,
{
    if end <= start {
        Some(0)
    } else {
        match lit_run_len(code, start, end - 1) {
            None => None,
            Some(t) => match code[end - 1] {
                Instr::Literal { off, len } => Some(t + len),
                _ => None,
            },
        }
    }
}

/// The index of the only `*` of `code[i..]`, given `found` before `i`; `None` when there
/// is none, more than one, or an instruction other than a literal or a separator.
pub open spec fn single_star(code: Seq<Instr>, i: int, found: Option<int>) -> Option<int>
    decreases code.len() - i,
{
    if i < 0 || i >= code.len() {
        found
    } else {
        match code[i] {
            Instr::Star => if found is Some {
                None
            } else {
                single_star(code, i + 1, Some(i))
            },
            Instr::Literal { .. } => single_star(code, i + 1, found),
            Instr::Sep => single_star(code, i + 1, found),
            _ => None,
        }
    }
}

/// `code[start..end]` is exactly one literal.
pub open spec fn literal_at(code: Seq<Instr>, start: int, end: int) -> Option<(u32, u32)> {
    if end - start == 1 && 0 <= start < code.len() {
        match code[start] {
            Instr::Literal { off, len } => Some((off, len)),
            _ => None,
        }
    } else {
        None
    }
}

/// `b` holds a `/` or a `\`.
pub open spec fn has_slash_byte(b: Seq<u8>) -> bool {
    exists|i: int| 0 <= i < b.len() && (#[trigger] b[i] == 47u8 || b[i] == 92u8)
}

/// The literal that alternative `i` of a brace group consists of, when it consists of one
/// literal followed by the group's jump or end.
pub open spec fn alt_literal(code: Seq<Instr>, alts: Seq<u32>, i: int) -> Option<(u32, u32)> {
    let pc = alts[i] as int;
    if 0 <= pc && pc + 1 < code.len() && (code[pc + 1] is BraceJumpEnd || code[pc + 1] is BraceEnd) {
        match code[pc] {
            Instr::Literal { off, len } => Some((off, len)),
            _ => None,
        }
    } else {
        None
    }
}

pub open spec fn pool_bytes(pool: Seq<u8>, r: (u32, u32)) -> Seq<u8> {
    pool.subrange(r.0 as int, r.0 + r.1)
}

/// The first up to eight bytes of `pool[off..off + len]`, packed little-endian.
pub open spec fn packed_of(pool: Seq<u8>, off: u32, len: u32) -> u64 {
    pack_spec(pool.subrange(off as int, off + if len <= 8 { len as int } else { 8 })) as u64
}

/// Every alternative `a..b` of a brace group is one literal that starts with a dot and
/// holds no separator.
pub open spec fn all_dotted(code: Seq<Instr>, pool: Seq<u8>, alts: Seq<u32>, a: int, b: int) -> bool {
    &&& a < b
    &&& forall|i: int| a <= i < b ==> #[trigger] dotted_alt(code, pool, alts, i)
}

pub open spec fn dotted_alt(code: Seq<Instr>, pool: Seq<u8>, alts: Seq<u32>, i: int) -> bool {
    match alt_literal(code, alts, i) {
        Some(r) => pool_bytes(pool, r).len() > 0 && pool_bytes(pool, r)[0] == 46u8
            && !has_slash_byte(pool_bytes(pool, r)),
        None => false,
    }
}

pub open spec fn plain_alt(code: Seq<Instr>, pool: Seq<u8>, alts: Seq<u32>, i: int) -> bool {
    match alt_literal(code, alts, i) {
        Some(r) => !has_slash_byte(pool_bytes(pool, r)),
        None => false,
    }
}

/// Every alternative `a..b` of a brace group is one literal without a separator.
pub open spec fn all_plain(code: Seq<Instr>, pool: Seq<u8>, alts: Seq<u32>, a: int, b: int) -> bool {
    forall|i: int| a <= i < b ==> #[trigger] plain_alt(code, pool, alts, i)
}

/// The extension texts of alternatives `a..b`, each after a dot when `dot` is set.
pub open spec fn staged(code: Seq<Instr>, pool: Seq<u8>, alts: Seq<u32>, a: int, b: int, dot: bool) -> Seq<Seq<u8>> {
    Seq::new(
        (b - a) as nat,
        |k: int|
            if dot {
                seq![46u8] + pool_bytes(pool, alt_literal(code, alts, a + k)->0)
            } else {
                pool_bytes(pool, alt_literal(code, alts, a + k)->0)
            },
    )
}

/// Appends the texts `st` to the pool, one extension entry each.
pub open spec fn append_exts(pool: Seq<u8>, st: Seq<Seq<u8>>) -> (Seq<u8>, Seq<ExtEntry>)
    decreases st.len(),
{
    if st.len() == 0 {
        (pool, Seq::empty())
    } else {
        let prev = append_exts(pool, st.subrange(0, st.len() - 1));
        let t = st[st.len() - 1];
        let off = prev.0.len() as u32;
        let np = prev.0 + t;
        (np, prev.1.push(ExtEntry { off, len: t.len() as u32, packed: packed_of(np, off, t.len() as u32) }))
    }
}

/// The total length of the texts `st`.
pub open spec fn total_len(st: Seq<Seq<u8>>) -> int
    decreases st.len(),
{
    if st.len() == 0 {
        0
    } else {
        total_len(st.subrange(0, st.len() - 1)) + st[st.len() - 1].len()
    }
}

/// The extension texts of alternatives `a..b` fit in the pool's `u32` offsets.
pub open spec fn exts_fit(code: Seq<Instr>, pool: Seq<u8>, alts: Seq<u32>, a: int, b: int, dot: bool) -> bool {
    pool.len() + total_len(staged(code, pool, alts, a, b, dot)) <= 0xFFFF_FFFF
}

/// The outcome of shape detection: the shape and the tables it adds.
pub struct ShapeOut {
    pub shape: FastShape,
    pub pool: Seq<u8>,
    pub suffixes: Seq<(u32, u32)>,
    pub exts: Seq<ExtEntry>,
}

pub open spec fn plain_shape(shape: FastShape, pool: Seq<u8>) -> ShapeOut {
    ShapeOut { shape, pool, suffixes: Seq::empty(), exts: Seq::empty() }
}

pub open spec fn dotted_shape(code: Seq<Instr>, pool: Seq<u8>, alts: Seq<u32>, a: int, b: int, dot: bool) -> ShapeOut {
    let r = append_exts(pool, staged(code, pool, alts, a, b, dot));
    ShapeOut {
        shape: FastShape::DottedExtensions { exts_off: 0, exts_len: (b - a) as u32 },
        pool: r.0,
        suffixes: Seq::empty(),
        exts: r.1,
    }
}

/// `literals*`: the length of the literals before a final `*`.
pub open spec fn prefix_star_len(code: Seq<Instr>, pool: Seq<u8>) -> Option<int> {
    let n = code.len() as int;
    if n >= 2 && code[n - 1] is Star {
        match lit_run_len(code, 0, n - 1) {
            Some(pl) => if pl <= pool.len() {
                Some(pl)
            } else {
                None
            },
            None => None,
        }
    } else {
        None
    }
}

/// `literals*literal`: the length of the literals before the only `*`, and the literal
/// after it, which holds no separator.
pub open spec fn prefix_star_suffix(code: Seq<Instr>, pool: Seq<u8>) -> Option<(int, (u32, u32))> {
    let n = code.len() as int;
    match single_star(code, 0, None) {
        Some(si) => match lit_run_len(code, 0, si) {
            Some(pl) => match literal_at(code, si + 1, n) {
                Some(r) => if pl <= pool.len() && !has_slash_byte(pool_bytes(pool, r)) {
                    Some((pl, r))
                } else {
                    None
                },
                None => None,
            },
            None => None,
        },
        None => None,
    }
}

/// Recognises the shapes that have a dedicated matcher.
pub open spec fn detect(code: Seq<Instr>, pool: Seq<u8>, alts: Seq<u32>) -> ShapeOut {
    let n = code.len() as int;
    let head = n >= 3 && code[0] is Globstar && code[1] is Sep && code[2] is Star;
    if n == 1 && code[0] is Literal {
        plain_shape(FastShape::Literal, pool)
    } else if prefix_star_len(code, pool) is Some {
        plain_shape(FastShape::PrefixStar { prefix_len: prefix_star_len(code, pool)->0 as u32 }, pool)
    } else if prefix_star_suffix(code, pool) is Some {
        let (pl, r) = prefix_star_suffix(code, pool)->0;
        plain_shape(
            FastShape::PrefixStarSuffix { prefix_len: pl as u32, suffix_off: r.0, suffix_len: r.1 },
            pool,
        )
    } else if n == 3 && code[0] is Globstar && code[1] is Sep && code[2] is Literal {
        plain_shape(
            FastShape::GlobstarLiteral { suffix_off: code[2]->Literal_off, suffix_len: code[2]->Literal_len },
            pool,
        )
    } else if head && n == 4 && code[3] is Literal && !has_slash_byte(
        pool_bytes(pool, (code[3]->Literal_off, code[3]->Literal_len)),
    ) {
        let off = code[3]->Literal_off;
        let len = code[3]->Literal_len;
        let suffix = pool_bytes(pool, (off, len));
        if suffix.len() > 0 && suffix[0] == 46u8 {
            plain_shape(
                FastShape::EndsWithLiteral {
                    tail_off: off,
                    tail_len: len,
                    tail_packed: if len <= 8 {
                        packed_of(pool, off, len)
                    } else {
                        0
                    },
                },
                pool,
            )
        } else {
            plain_shape(FastShape::GlobstarStarSuffix { suffix_off: off, suffix_len: len }, pool)
        }
    } else if head && n >= 6 && code[3] is Literal && code[4] is BraceOpen && code[4]->BraceOpen_end
        == n && code[3]->Literal_len == 1 && pool[code[3]->Literal_off as int] == 46u8 && all_plain(
        code,
        pool,
        alts,
        code[4]->BraceOpen_alts.0 as int,
        code[4]->BraceOpen_alts.1 as int,
    ) && code[4]->BraceOpen_alts.0 < code[4]->BraceOpen_alts.1 && exts_fit(
        code,
        pool,
        alts,
        code[4]->BraceOpen_alts.0 as int,
        code[4]->BraceOpen_alts.1 as int,
        true,
    ) {
        dotted_shape(code, pool, alts, code[4]->BraceOpen_alts.0 as int, code[4]->BraceOpen_alts.1 as int, true)
    } else if head && n >= 6 && code[3] is BraceOpen && code[3]->BraceOpen_end == n && all_dotted(
        code,
        pool,
        alts,
        code[3]->BraceOpen_alts.0 as int,
        code[3]->BraceOpen_alts.1 as int,
    ) && exts_fit(
        code,
        pool,
        alts,
        code[3]->BraceOpen_alts.0 as int,
        code[3]->BraceOpen_alts.1 as int,
        false,
    ) {
        dotted_shape(code, pool, alts, code[3]->BraceOpen_alts.0 as int, code[3]->BraceOpen_alts.1 as int, false)
    } else if head && n >= 5 && code[3] is BraceOpen && code[3]->BraceOpen_end == n && all_plain(
        code,
        pool,
        alts,
        code[3]->BraceOpen_alts.0 as int,
        code[3]->BraceOpen_alts.1 as int,
    ) && code[3]->BraceOpen_alts.0 < code[3]->BraceOpen_alts.1 {
        let a = code[3]->BraceOpen_alts.0 as int;
        let b = code[3]->BraceOpen_alts.1 as int;
        ShapeOut {
            shape: FastShape::GlobstarStarSuffixes { suffixes_off: 0, suffixes_len: (b - a) as u32 },
            pool,
            suffixes: Seq::new((b - a) as nat, |k: int| alt_literal(code, alts, a + k)->0),
            exts: Seq::empty(),
        }
    } else {
        plain_shape(FastShape::NoShape, pool)
    }
}

/// The total length of the literals `code[start..end]`, or `None` when another instruction
/// stands there.
fn literal_run_len(code: &[Instr], start: usize, end: usize) -> (r: Option<u64>)
    requires
        start <= end <= code@.len() <= 0xFFFF_FFFF,
    ensures
        match r {
            Some(t) => lit_run_len(code@, start as int, end as int) == Some(t as int),
            None => lit_run_len(code@, start as int, end as int) is None,
        },
{
    let mut total: u64 = 0;
    let mut i = start;
    while i < end
        invariant
            start <= i <= end <= code@.len() <= 0xFFFF_FFFF,
            lit_run_len(code@, start as int, i as int) == Some(total as int),
            total <= (i - start) * 0xFFFF_FFFF,
        decreases end - i,
    {
        match code[i] {
            Instr::Literal { len, .. } => {
                total = total + len as u64;
            },
            _ => {
                proof {
                    assert(lit_run_len(code@, start as int, i + 1) is None);
                    lemma_lit_run_none(code@, start as int, i + 1, end as int);
                }
                return None;
            },
        }
        i = i + 1;
    }
    Some(total)
}

proof fn lemma_lit_run_none(code: Seq<Instr>, start: int, i: int, end: int)
    requires
        start <= i <= end,
        lit_run_len(code, start, i) is None,
    ensures
        lit_run_len(code, start, end) is None,
    decreases end - i,
{
    if i < end {
        lemma_lit_run_none(code, start, i + 1, end);
    }
}

/// The index of the only `*` in `code`, when every other instruction is a literal or a
/// separator.
fn find_single_star(code: &[Instr]) -> (r: Option<usize>)
    ensures
        match r {
            Some(i) => single_star(code@, 0, None) == Some(i as int),
            None => single_star(code@, 0, None) is None,
        },
{
    let mut found: Option<usize> = None;
    let mut i: usize = 0;
    while i < code.len()
        invariant
            i <= code@.len(),
            single_star(code@, 0, None) == single_star(
                code@,
                i as int,
                match found {
                    Some(f) => Some(f as int),
                    None => None,
                },
            ),
            found matches Some(f) ==> f < i,
        decreases code@.len() - i,
    {
        match code[i] {
            Instr::Star => {
                if found.is_some() {
                    return None;
                }
                found = Some(i);
            },
            Instr::Literal { .. } => {},
            Instr::Sep => {},
            _ => {
                return None;
            },
        }
        i = i + 1;
    }
    found
}

/// The literal that `code[start..end]` consists of.
fn literal_run_at(code: &[Instr], start: usize, end: usize) -> (r: Option<(u32, u32)>)
    requires
        start <= end,
    ensures
        r == literal_at(code@, start as int, end as int),
{
    if end - start == 1 && start < code.len() {
        if let Instr::Literal { off, len } = code[start] {
            return Some((off, len));
        }
    }
    None
}

/// Whether `b` holds a `/` or a `\`.
fn has_slash_bytes(b: &[u8]) -> (r: bool)
    ensures
        r == has_slash_byte(b@),
{
    let mut i: usize = 0;
    while i < b.len()
        invariant
            i <= b@.len(),
            forall|j: int| 0 <= j < i ==> !(#[trigger] b@[j] == 47u8 || b@[j] == 92u8),
        decreases b@.len() - i,
    {
        if b[i] == 47u8 || b[i] == 92u8 {
            return true;
        }
        i = i + 1;
    }
    false
}

/// The first up to eight bytes of `pool[off..off + len]`, packed little-endian.
fn pack_extension(pool: &[u8], off: u32, len: u32) -> (r: u64)
    requires
        off + len <= pool@.len(),
    ensures
        r == packed_of(pool@, off, len),
{
    let n: usize = if len <= 8 {
        len as usize
    } else {
        8
    };
    let start = off as usize;
    let plen = pool.len();
    assert(start + n <= plen);
    let bytes = &pool[start..start + n];
    pack_le(bytes)
}

/// The literal that alternative `i` of a brace group consists of.
fn alt_literal_at(code: &[Instr], alt_table: &[u32], i: usize) -> (r: Option<(u32, u32)>)
    requires
        i < alt_table@.len(),
    ensures
        r == alt_literal(code@, alt_table@, i as int),
{
    let pc = alt_table[i] as usize;
    if pc < code.len() && pc + 1 < code.len() {
        let terminates = match code[pc + 1] {
            Instr::BraceJumpEnd(_) => true,
            Instr::BraceEnd => true,
            _ => false,
        };
        if terminates {
            if let Instr::Literal { off, len } = code[pc] {
                return Some((off, len));
            }
        }
    }
    None
}

proof fn lemma_append_exts_len(pool: Seq<u8>, st: Seq<Seq<u8>>)
    ensures
        append_exts(pool, st).0.len() == pool.len() + total_len(st),
        append_exts(pool, st).1.len() == st.len(),
        total_len(st) >= 0,
    decreases st.len(),
{
    if st.len() > 0 {
        lemma_append_exts_len(pool, st.subrange(0, st.len() - 1));
    }
}

/// Whether every alternative `a..b` of a brace group is one literal that starts with a dot
/// and holds no separator.
fn brace_alts_all_dotted(prog: &Program, alts: (u32, u32)) -> (r: bool)
    requires
        alts.0 <= alts.1 <= prog.alt_table@.len(),
        code_ok(prog.code@, prog.pool@.len() as int, prog.classes@.len() as int, prog.alt_table@.len() as int),
    ensures
        r == all_dotted(prog.code@, prog.pool@, prog.alt_table@, alts.0 as int, alts.1 as int),
{
    let (a, b) = alts;
    if a == b {
        return false;
    }
    let mut i = a;
    while i < b
        invariant
            a <= i <= b <= prog.alt_table@.len(),
            a < b,
            a == alts.0,
            b == alts.1,
            code_ok(prog.code@, prog.pool@.len() as int, prog.classes@.len() as int, prog.alt_table@.len() as int),
            forall|k: int| a <= k < i ==> #[trigger] dotted_alt(prog.code@, prog.pool@, prog.alt_table@, k),
        decreases b - i,
    {
        let lit = alt_literal_at(prog.code.as_slice(), prog.alt_table.as_slice(), i as usize);
        match lit {
            None => {
                assert(alt_literal(prog.code@, prog.alt_table@, i as int) is None);
                assert(!dotted_alt(prog.code@, prog.pool@, prog.alt_table@, i as int));
                assert(!all_dotted(prog.code@, prog.pool@, prog.alt_table@, a as int, b as int));
                return false;
            },
            Some((off, len)) => {
                proof {
                    let pc = prog.alt_table@[i as int] as int;
                    assert(fits_tables(prog.code@[pc], prog.pool@.len() as int, prog.classes@.len() as int, prog.alt_table@.len() as int));
                }
                let start = off as usize;
                let plen = prog.pool.len();
                assert(start + len <= plen);
                let bytes = &prog.pool[start..start + len as usize];
                assert(bytes@ == pool_bytes(prog.pool@, (off, len)));
                if bytes.len() == 0 || bytes[0] != 46u8 || has_slash_bytes(bytes) {
                    assert(!dotted_alt(prog.code@, prog.pool@, prog.alt_table@, i as int));
                    return false;
                }
            },
        }
        i = i + 1;
    }
    true
}

/// Copies the extension texts of alternatives `a..b` (after a dot when `prepend_dot`) to
/// the end of the pool, one extension entry each; `None`, with nothing changed, when an
/// alternative is not one literal without a separator, or when there is none.
fn collect_brace_lits(prog: &mut Program, alts: (u32, u32), prepend_dot: bool) -> (r: Option<(u32, u32)>)
    requires
        alts.0 <= alts.1 <= old(prog).alt_table@.len(),
        code_ok(old(prog).code@, old(prog).pool@.len() as int, old(prog).classes@.len() as int, old(prog).alt_table@.len() as int),
        old(prog).pool@.len() <= 0xFFFF_FFFF,
        old(prog).alt_table@.len() <= 0xFFFF_FFFF,
        old(prog).ext_table@.len() == 0,
    ensures
        final(prog).code == old(prog).code,
        final(prog).classes == old(prog).classes,
        final(prog).alt_table == old(prog).alt_table,
        final(prog).suffix_table == old(prog).suffix_table,
        final(prog).negated == old(prog).negated,
        final(prog).has_slash == old(prog).has_slash,
        final(prog).prefilter == old(prog).prefilter,
        final(prog).shape == old(prog).shape,
        final(prog).matcher_fn == old(prog).matcher_fn,
        final(prog).base_matcher_fn == old(prog).base_matcher_fn,
        ({
            let code = old(prog).code@;
            let pool = old(prog).pool@;
            let at = old(prog).alt_table@;
            let (a, b) = (alts.0 as int, alts.1 as int);
            if all_plain(code, pool, at, a, b) && a < b && exts_fit(code, pool, at, a, b, prepend_dot) {
                r == Some((0u32, (b - a) as u32))
                    && (final(prog).pool@, final(prog).ext_table@) == append_exts(pool, staged(code, pool, at, a, b, prepend_dot))
            } else {
                r is None && final(prog).pool@ == pool && final(prog).ext_table@ == old(prog).ext_table@
            }
        }),
{
    let ghost code = prog.code@;
    let ghost pool0 = prog.pool@;
    let ghost at = prog.alt_table@;
    let (a, b) = alts;
    let ghost st = staged(code, pool0, at, a as int, b as int, prepend_dot);
    let mut staged_texts: Vec<Vec<u8>> = Vec::new();
    let mut total: u64 = 0;
    let mut i = a;
    proof {
        assert(st.subrange(0, 0) =~= Seq::<Seq<u8>>::empty());
    }
    while i < b
        invariant
            a <= i <= b <= at.len() <= 0xFFFF_FFFF,
            a == alts.0,
            b == alts.1,
            code == prog.code@,
            pool0 == prog.pool@,
            at == prog.alt_table@,
            pool0.len() <= 0xFFFF_FFFF,
            st == staged(code, pool0, at, a as int, b as int, prepend_dot),
            code_ok(code, pool0.len() as int, prog.classes@.len() as int, at.len() as int),
            forall|k: int| a <= k < i ==> #[trigger] plain_alt(code, pool0, at, k),
            staged_texts@.len() == i - a,
            forall|k: int| 0 <= k < i - a ==> (#[trigger] staged_texts@[k])@ == st[k],
            total as int == total_len(st.subrange(0, i - a)),
            total <= (i - a) * 0x1_0000_0000,
            prog.code == old(prog).code,
            prog.pool == old(prog).pool,
            prog.classes == old(prog).classes,
            prog.alt_table == old(prog).alt_table,
            prog.suffix_table == old(prog).suffix_table,
            prog.ext_table == old(prog).ext_table,
            prog.negated == old(prog).negated,
            prog.has_slash == old(prog).has_slash,
            prog.prefilter == old(prog).prefilter,
            prog.shape == old(prog).shape,
            prog.matcher_fn == old(prog).matcher_fn,
            prog.base_matcher_fn == old(prog).base_matcher_fn,
        decreases b - i,
    {
        let lit = alt_literal_at(prog.code.as_slice(), prog.alt_table.as_slice(), i as usize);
        match lit {
            None => {
                assert(!plain_alt(code, pool0, at, i as int));
                return None;
            },
            Some((off, len)) => {
                proof {
                    let pc = at[i as int] as int;
                    assert(fits_tables(code[pc], pool0.len() as int, prog.classes@.len() as int, at.len() as int));
                }
                let start = off as usize;
                let bytes = &prog.pool[start..start + len as usize];
                assert(bytes@ == pool_bytes(pool0, (off, len)));
                if has_slash_bytes(bytes) {
                    assert(!plain_alt(code, pool0, at, i as int));
                    return None;
                }
                let mut owned: Vec<u8> = Vec::new();
                if prepend_dot {
                    owned.push(46u8);
                }
                owned.extend_from_slice(bytes);
                proof {
                    if prepend_dot {
                        assert(owned@ =~= seq![46u8] + bytes@);
                    } else {
                        assert(owned@ =~= bytes@);
                    }
                    assert(owned@ == st[i - a]);
                    assert(st.subrange(0, i - a + 1).subrange(0, i - a) =~= st.subrange(0, i - a));
                }
                total = total + owned.len() as u64;
                staged_texts.push(owned);
            },
        }
        i = i + 1;
    }
    if staged_texts.len() == 0 {
        return None;
    }
    proof {
        assert(st.subrange(0, b - a) =~= st);
    }
    if prog.pool.len() as u64 + total > 0xFFFF_FFFF {
        return None;
    }
    let count = staged_texts.len();
    let mut k: usize = 0;
    proof {
        assert(st.subrange(0, 0) =~= Seq::<Seq<u8>>::empty());
        lemma_append_exts_len(pool0, st);
    }
    while k < count
        invariant
            count == staged_texts@.len() == st.len(),
            k <= count,
            forall|j: int| 0 <= j < count ==> (#[trigger] staged_texts@[j])@ == st[j],
            (prog.pool@, prog.ext_table@) == append_exts(pool0, st.subrange(0, k as int)),
            pool0.len() + total_len(st) <= 0xFFFF_FFFF,
            prog.code@ == code,
            prog.alt_table@ == at,
            prog.classes == old(prog).classes,
            prog.suffix_table == old(prog).suffix_table,
            prog.negated == old(prog).negated,
            prog.has_slash == old(prog).has_slash,
            prog.prefilter == old(prog).prefilter,
            prog.shape == old(prog).shape,
            prog.matcher_fn == old(prog).matcher_fn,
            prog.base_matcher_fn == old(prog).base_matcher_fn,
            prog.code == old(prog).code,
            prog.alt_table == old(prog).alt_table,
        decreases count - k,
    {
        proof {
            lemma_append_exts_len(pool0, st.subrange(0, k as int));
            lemma_total_len_prefix(st, k as int);
        }
        let new_off = prog.pool.len() as u32;
        prog.pool.extend_from_slice(staged_texts[k].as_slice());
        let new_len = staged_texts[k].len() as u32;
        let packed = pack_extension(prog.pool.as_slice(), new_off, new_len);
        prog.ext_table.push(ExtEntry { off: new_off, len: new_len, packed });
        proof {
            assert(st.subrange(0, k + 1).subrange(0, k as int) =~= st.subrange(0, k as int));
            assert(prog.pool@ =~= append_exts(pool0, st.subrange(0, k as int)).0 + st[k as int]);
        }
        k = k + 1;
    }
    proof {
        assert(st.subrange(0, count as int) =~= st);
    }
    Some((0, count as u32))
}

proof fn lemma_total_len_prefix(st: Seq<Seq<u8>>, k: int)
    requires
        0 <= k < st.len(),
    ensures
        total_len(st.subrange(0, k)) + st[k].len() <= total_len(st),
    decreases st.len(),
{
    if k < st.len() - 1 {
        lemma_total_len_prefix(st.subrange(0, st.len() - 1), k);
        assert(st.subrange(0, st.len() - 1).subrange(0, k) =~= st.subrange(0, k));
    } else {
        assert(st.subrange(0, st.len() - 1) =~= st.subrange(0, k));
    }
}

/// Recognises the shape of `prog` and records the tables its matcher reads.
fn detect_shape(prog: &mut Program) -> (r: FastShape)
    requires
        code_ok(old(prog).code@, old(prog).pool@.len() as int, old(prog).classes@.len() as int, old(prog).alt_table@.len() as int),
        small_sizes(
            old(prog).code@.len() as int,
            old(prog).pool@.len() as int,
            old(prog).classes@.len() as int,
            old(prog).alt_table@.len() as int,
        ),
        old(prog).suffix_table@.len() == 0,
        old(prog).ext_table@.len() == 0,
    ensures
        ({
            let d = detect(old(prog).code@, old(prog).pool@, old(prog).alt_table@);
            &&& r == d.shape
            &&& final(prog).pool@ == d.pool
            &&& final(prog).suffix_table@ == d.suffixes
            &&& final(prog).ext_table@ == d.exts
        }),
        final(prog).code == old(prog).code,
        final(prog).classes == old(prog).classes,
        final(prog).alt_table == old(prog).alt_table,
        final(prog).negated == old(prog).negated,
        final(prog).has_slash == old(prog).has_slash,
        final(prog).prefilter == old(prog).prefilter,
        final(prog).shape == old(prog).shape,
        final(prog).matcher_fn == old(prog).matcher_fn,
        final(prog).base_matcher_fn == old(prog).base_matcher_fn,
{
    let ghost code = prog.code@;
    let ghost pool = prog.pool@;
    let ghost at = prog.alt_table@;
    let n = prog.code.len();
    if n == 1 {
        if let Instr::Literal { .. } = prog.code[0] {
            return FastShape::Literal;
        }
    }
    if n >= 2 {
        if let Instr::Star = prog.code[n - 1] {
            if let Some(plen) = literal_run_len(prog.code.as_slice(), 0, n - 1) {
                if plen <= prog.pool.len() as u64 {
                    return FastShape::PrefixStar { prefix_len: plen as u32 };
                }
            }
        }
    }
    assert(prefix_star_len(code, pool) is None);
    if let Some(star_idx) = find_single_star(prog.code.as_slice()) {
        proof {
            lemma_single_star_range(code, 0, None);
        }
        let plen = literal_run_len(prog.code.as_slice(), 0, star_idx);
        let suffix = literal_run_at(prog.code.as_slice(), star_idx + 1, n);
        if let (Some(plen), Some((soff, slen))) = (plen, suffix) {
            if plen <= prog.pool.len() as u64 {
                proof {
                    assert(fits_tables(code[star_idx + 1], pool.len() as int, prog.classes@.len() as int, at.len() as int));
                }
                let start = soff as usize;
                let sb = &prog.pool[start..start + slen as usize];
                assert(sb@ == pool_bytes(pool, (soff, slen)));
                if !has_slash_bytes(sb) {
                    return FastShape::PrefixStarSuffix {
                        prefix_len: plen as u32,
                        suffix_off: soff,
                        suffix_len: slen,
                    };
                }
            }
        }
    }
    assert(prefix_star_suffix(code, pool) is None);
    if n == 3 {
        if let (Instr::Globstar, Instr::Sep, Instr::Literal { off, len }) = (
            prog.code[0],
            prog.code[1],
            prog.code[2],
        ) {
            return FastShape::GlobstarLiteral { suffix_off: off, suffix_len: len };
        }
    }
    if n == 4 {
        if let (Instr::Globstar, Instr::Sep, Instr::Star, Instr::Literal { off, len }) = (
            prog.code[0],
            prog.code[1],
            prog.code[2],
            prog.code[3],
        ) {
            proof {
                assert(fits_tables(code[3], pool.len() as int, prog.classes@.len() as int, at.len() as int));
            }
            let start = off as usize;
            let suffix = &prog.pool[start..start + len as usize];
            assert(suffix@ == pool_bytes(pool, (off, len)));
            if !has_slash_bytes(suffix) {
                if suffix.len() > 0 && suffix[0] == 46u8 {
                    let packed = if len <= 8 {
                        pack_extension(prog.pool.as_slice(), off, len)
                    } else {
                        0
                    };
                    return FastShape::EndsWithLiteral { tail_off: off, tail_len: len, tail_packed: packed };
                }
                return FastShape::GlobstarStarSuffix { suffix_off: off, suffix_len: len };
            }
        }
    }
    if n >= 6 {
        let head_ok = match (prog.code[0], prog.code[1], prog.code[2]) {
            (Instr::Globstar, Instr::Sep, Instr::Star) => true,
            _ => false,
        };
        if head_ok {
            let case_a = match (prog.code[3], prog.code[4]) {
                (Instr::Literal { off: doff, len: dlen }, Instr::BraceOpen { alts, end }) => {
                    proof {
                        assert(fits_tables(code[3], pool.len() as int, prog.classes@.len() as int, at.len() as int));
                    }
                    if end as usize == n && dlen == 1 && prog.pool[doff as usize] == 46u8 {
                        Some(alts)
                    } else {
                        None
                    }
                },
                _ => None,
            };
            if let Some(alts) = case_a {
                proof {
                    assert(fits_tables(code[4], pool.len() as int, prog.classes@.len() as int, at.len() as int));
                }
                if let Some(range) = collect_brace_lits(prog, alts, true) {
                    return FastShape::DottedExtensions { exts_off: range.0, exts_len: range.1 };
                }
            }
            let case_b = match prog.code[3] {
                Instr::BraceOpen { alts, end } => if end as usize == n {
                    Some(alts)
                } else {
                    None
                },
                _ => None,
            };
            if let Some(alts) = case_b {
                proof {
                    assert(fits_tables(code[3], pool.len() as int, prog.classes@.len() as int, at.len() as int));
                }
                let all_dotted = brace_alts_all_dotted(prog, alts);
                if all_dotted {
                    proof {
                        lemma_dotted_plain(code, pool, at, alts.0 as int, alts.1 as int);
                    }
                    if let Some(range) = collect_brace_lits(prog, alts, false) {
                        return FastShape::DottedExtensions { exts_off: range.0, exts_len: range.1 };
                    }
                }
            }
        }
    }
    if n >= 5 {
        if let (Instr::Globstar, Instr::Sep, Instr::Star, Instr::BraceOpen { alts, end }) = (
            prog.code[0],
            prog.code[1],
            prog.code[2],
            prog.code[3],
        ) {
            if end as usize != n {
                return FastShape::NoShape;
            }
            proof {
                assert(fits_tables(code[3], pool.len() as int, prog.classes@.len() as int, at.len() as int));
            }
            let (a, b) = alts;
            let ghost sfx = Seq::new((b - a) as nat, |k: int| alt_literal(code, at, a + k)->0);
            let ghost rest = if all_plain(code, pool, at, a as int, b as int) && a < b {
                ShapeOut {
                    shape: FastShape::GlobstarStarSuffixes { suffixes_off: 0, suffixes_len: (b - a) as u32 },
                    pool,
                    suffixes: sfx,
                    exts: Seq::empty(),
                }
            } else {
                plain_shape(FastShape::NoShape, pool)
            };
            assert(detect(code, pool, at) == rest);
            let mut suffixes: Vec<(u32, u32)> = Vec::new();
            let mut i = a;
            while i < b
                invariant
                    a <= i <= b <= at.len(),
                    code == prog.code@,
                    pool == prog.pool@,
                    at == prog.alt_table@,
                    prog.code == old(prog).code,
                    prog.alt_table == old(prog).alt_table,
                    prog.classes == old(prog).classes,
                    code_ok(code, pool.len() as int, prog.classes@.len() as int, at.len() as int),
                    !all_plain(code, pool, at, a as int, b as int) ==> detect(code, pool, at) == plain_shape(FastShape::NoShape, pool),
                    all_plain(code, pool, at, a as int, b as int) && a < b ==> detect(code, pool, at) == (ShapeOut {
                        shape: FastShape::GlobstarStarSuffixes { suffixes_off: 0, suffixes_len: (b - a) as u32 },
                        pool,
                        suffixes: sfx,
                        exts: Seq::empty(),
                    }),
                    prog.ext_table@ == Seq::<ExtEntry>::empty(),
                    prog.suffix_table == old(prog).suffix_table,
                    old(prog).suffix_table@.len() == 0,
                    code == old(prog).code@,
                    pool == old(prog).pool@,
                    at == old(prog).alt_table@,
                    prog.negated == old(prog).negated,
                    prog.has_slash == old(prog).has_slash,
                    prog.prefilter == old(prog).prefilter,
                    prog.shape == old(prog).shape,
                    prog.matcher_fn == old(prog).matcher_fn,
                    prog.base_matcher_fn == old(prog).base_matcher_fn,
                    sfx == Seq::new((b - a) as nat, |k: int| alt_literal(code, at, a + k)->0),
                    forall|k: int| a <= k < i ==> #[trigger] plain_alt(code, pool, at, k),
                    suffixes@ == sfx.subrange(0, i - a),
                decreases b - i,
            {
                let lit = alt_literal_at(prog.code.as_slice(), prog.alt_table.as_slice(), i as usize);
                match lit {
                    None => {
                        assert(!plain_alt(code, pool, at, i as int));
                        return FastShape::NoShape;
                    },
                    Some((off, len)) => {
                        proof {
                            let pc = at[i as int] as int;
                            assert(fits_tables(code[pc], pool.len() as int, prog.classes@.len() as int, at.len() as int));
                        }
                        let start = off as usize;
                        let plen = prog.pool.len();
                        assert(start + len <= plen);
                        let sb = &prog.pool[start..start + len as usize];
                        assert(sb@ == pool_bytes(pool, (off, len)));
                        if has_slash_bytes(sb) {
                            assert(!plain_alt(code, pool, at, i as int));
                            return FastShape::NoShape;
                        }
                        suffixes.push((off, len));
                        proof {
                            assert(suffixes@ =~= sfx.subrange(0, i - a + 1));
                        }
                    },
                }
                i = i + 1;
            }
            if suffixes.len() > 0 {
                proof {
                    assert(suffixes@ =~= sfx);
                }
                let count = suffixes.len() as u32;
                prog.suffix_table = suffixes;
                return FastShape::GlobstarStarSuffixes { suffixes_off: 0, suffixes_len: count };
            }
        }
    }
    FastShape::NoShape
}

proof fn lemma_dotted_plain(code: Seq<Instr>, pool: Seq<u8>, at: Seq<u32>, a: int, b: int)
    requires
        all_dotted(code, pool, at, a, b),
    ensures
        all_plain(code, pool, at, a, b),
        a < b,
{
    assert forall|k: int| a <= k < b implies #[trigger] plain_alt(code, pool, at, k) by {
        assert(dotted_alt(code, pool, at, k));
    }
}

pub proof fn lemma_single_star_range(code: Seq<Instr>, i: int, found: Option<int>)
    requires
        0 <= i <= code.len(),
        found matches Some(f) ==> 0 <= f < i && code[f] is Star,
    ensures
        single_star(code, i, found) matches Some(si) ==> 0 <= si < code.len() && code[si] is Star,
    decreases code.len() - i,
{
    if i < code.len() {
        match code[i] {
            Instr::Star => if found is None {
                lemma_single_star_range(code, i + 1, Some(i));
            },
            Instr::Literal { .. } => lemma_single_star_range(code, i + 1, found),
            Instr::Sep => lemma_single_star_range(code, i + 1, found),
            _ => {},
        }
    }
}

/// The matcher for a shape.
pub open spec fn matcher_for(shape: FastShape, o: MatchOptions) -> MatcherFn {
    if o.contains {
        MatcherFn::AnywhereDispatch
    } else {
        match shape {
            FastShape::Literal => MatcherFn::Literal,
            FastShape::PrefixStar { .. } => MatcherFn::PrefixStar,
            FastShape::PrefixStarSuffix { .. } => MatcherFn::PrefixStarSuffix,
            FastShape::GlobstarLiteral { .. } => MatcherFn::GlobstarLiteral,
            FastShape::GlobstarStarSuffix { .. } => MatcherFn::GlobstarStarSuffix,
            FastShape::GlobstarStarSuffixes { .. } => MatcherFn::GlobstarStarSuffixes,
            FastShape::DottedExtensions { .. } => MatcherFn::DottedExtensions,
            FastShape::EndsWithLiteral { .. } => MatcherFn::EndsWithLiteral,
            FastShape::NoShape => MatcherFn::AnchoredDispatch,
        }
    }
}

fn pick_matcher_fn(shape: &FastShape, opts: &MatchOptions) -> (r: MatcherFn)
    ensures
        r == matcher_for(*shape, *opts),
{
    if opts.contains {
        return MatcherFn::AnywhereDispatch;
    }
    match shape {
        FastShape::Literal => MatcherFn::Literal,
        FastShape::PrefixStar { .. } => MatcherFn::PrefixStar,
        FastShape::PrefixStarSuffix { .. } => MatcherFn::PrefixStarSuffix,
        FastShape::GlobstarLiteral { .. } => MatcherFn::GlobstarLiteral,
        FastShape::GlobstarStarSuffix { .. } => MatcherFn::GlobstarStarSuffix,
        FastShape::GlobstarStarSuffixes { .. } => MatcherFn::GlobstarStarSuffixes,
        FastShape::DottedExtensions { .. } => MatcherFn::DottedExtensions,
        FastShape::EndsWithLiteral { .. } => MatcherFn::EndsWithLiteral,
        FastShape::NoShape => MatcherFn::AnchoredDispatch,
    }
}

/// The shape's offsets and lengths are in range of tables of the given sizes.
pub open spec fn shape_fits(shape: FastShape, pool: int, suffixes: int, exts: int) -> bool {
    match shape {
        FastShape::PrefixStar { prefix_len } => prefix_len <= pool,
        FastShape::PrefixStarSuffix { prefix_len, suffix_off, suffix_len } => prefix_len <= pool
            && suffix_off + suffix_len <= pool,
        FastShape::GlobstarLiteral { suffix_off, suffix_len } => suffix_off + suffix_len <= pool,
        FastShape::GlobstarStarSuffix { suffix_off, suffix_len } => suffix_off + suffix_len <= pool,
        FastShape::GlobstarStarSuffixes { suffixes_off, suffixes_len } => suffixes_off + suffixes_len
            <= suffixes,
        FastShape::DottedExtensions { exts_off, exts_len } => exts_off + exts_len <= exts,
        FastShape::EndsWithLiteral { tail_off, tail_len, tail_packed } => tail_off + tail_len <= pool,
        _ => true,
    }
}

proof fn lemma_append_exts_in(pool: Seq<u8>, st: Seq<Seq<u8>>)
    requires
        pool.len() + total_len(st) <= 0xFFFF_FFFF,
    ensures
        forall|i: int|
            0 <= i < append_exts(pool, st).1.len() ==> (#[trigger] append_exts(pool, st).1[i]).off
                + append_exts(pool, st).1[i].len <= append_exts(pool, st).0.len(),
        append_exts(pool, st).0.len() == pool.len() + total_len(st),
        append_exts(pool, st).1.len() == st.len(),
        total_len(st) >= 0,
    decreases st.len(),
{
    lemma_append_exts_len(pool, st);
    if st.len() > 0 {
        let prev = st.subrange(0, st.len() - 1);
        lemma_total_len_prefix(st, st.len() - 1);
        lemma_append_exts_len(pool, prev);
        lemma_append_exts_in(pool, prev);
    }
}

proof fn lemma_lit_run_nonneg(code: Seq<Instr>, start: int, end: int)
    ensures
        lit_run_len(code, start, end) matches Some(t) ==> t >= 0,
    decreases end - start,
{
    if end > start {
        lemma_lit_run_nonneg(code, start, end - 1);
    }
}

/// What shape detection adds stays in range of the tables it leaves.
proof fn lemma_detect_ok(code: Seq<Instr>, pool: Seq<u8>, at: Seq<u32>, nclasses: int)
    requires
        code_ok(code, pool.len() as int, nclasses, at.len() as int),
        small_sizes(code.len() as int, pool.len() as int, nclasses, at.len() as int),
    ensures
        ({
            let d = detect(code, pool, at);
            &&& d.pool.len() >= pool.len()
            &&& forall|i: int|
                0 <= i < d.suffixes.len() ==> (#[trigger] d.suffixes[i]).0 + d.suffixes[i].1
                    <= d.pool.len()
            &&& forall|i: int|
                0 <= i < d.exts.len() ==> (#[trigger] d.exts[i]).off + d.exts[i].len <= d.pool.len()
            &&& shape_fits(d.shape, d.pool.len() as int, d.suffixes.len() as int, d.exts.len() as int)
        }),
{
    let d = detect(code, pool, at);
    let n = code.len() as int;
    lemma_lit_run_nonneg(code, 0, n - 1);
    if single_star(code, 0, None) is Some {
        lemma_lit_run_nonneg(code, 0, single_star(code, 0, None)->0);
    }
    if d.shape is PrefixStarSuffix {
        let (pl, r) = prefix_star_suffix(code, pool)->0;
        let si = single_star(code, 0, None)->0;
        lemma_single_star_range(code, 0, None);
        assert(fits_tables(code[si + 1], pool.len() as int, nclasses, at.len() as int));
    }
    if n >= 3 {
        assert(fits_tables(code[2], pool.len() as int, nclasses, at.len() as int));
    }
    if n >= 4 {
        assert(fits_tables(code[3], pool.len() as int, nclasses, at.len() as int));
    }
    if n >= 5 {
        assert(fits_tables(code[4], pool.len() as int, nclasses, at.len() as int));
    }
    if d.shape is DottedExtensions {
        let head = n >= 3 && code[0] is Globstar && code[1] is Sep && code[2] is Star;
        if head && n >= 6 && code[3] is Literal && code[4] is BraceOpen && code[4]->BraceOpen_end == n && code[3]->Literal_len == 1
            && pool[code[3]->Literal_off as int] == 46u8 && all_plain(code, pool, at, code[4]->BraceOpen_alts.0 as int, code[4]->BraceOpen_alts.1 as int)
            && code[4]->BraceOpen_alts.0 < code[4]->BraceOpen_alts.1 && exts_fit(code, pool, at, code[4]->BraceOpen_alts.0 as int, code[4]->BraceOpen_alts.1 as int, true) {
            let (a, b) = (code[4]->BraceOpen_alts.0 as int, code[4]->BraceOpen_alts.1 as int);
            lemma_append_exts_in(pool, staged(code, pool, at, a, b, true));
            assert(d == dotted_shape(code, pool, at, a, b, true));
        } else {
            let (a, b) = (code[3]->BraceOpen_alts.0 as int, code[3]->BraceOpen_alts.1 as int);
            lemma_append_exts_in(pool, staged(code, pool, at, a, b, false));
            assert(d == dotted_shape(code, pool, at, a, b, false));
        }
    }
    if d.shape is GlobstarStarSuffixes {
        let (a, b) = (code[3]->BraceOpen_alts.0 as int, code[3]->BraceOpen_alts.1 as int);
        assert forall|i: int| 0 <= i < d.suffixes.len() implies (#[trigger] d.suffixes[i]).0 + d.suffixes[i].1 <= d.pool.len() by {
            assert(plain_alt(code, pool, at, a + i));
            let pc = at[a + i] as int;
            assert(fits_tables(code[pc], pool.len() as int, nclasses, at.len() as int));
        }
    }
    if !(d.shape is DottedExtensions) {
        assert(d.pool == pool);
    }
    assert(d.pool.len() >= pool.len());
    assert(forall|i: int| 0 <= i < d.exts.len() ==> (#[trigger] d.exts[i]).off + d.exts[i].len <= d.pool.len());
    assert(forall|i: int| 0 <= i < d.suffixes.len() ==> (#[trigger] d.suffixes[i]).0 + d.suffixes[i].1 <= d.pool.len());
    assert(shape_fits(d.shape, d.pool.len() as int, d.suffixes.len() as int, d.exts.len() as int));
}

/// The program compiled from the elements `nodes` of a pattern.
pub open spec fn program_for(
    p: Program,
    nodes: Seq<SNode>,
    negated: bool,
    has_slash: bool,
    o: MatchOptions,
) -> bool {
    let e = emit_seq(no_emission(), nodes, true, o.nocase);
    let d = detect(e.code, e.pool, e.alts);
    let base = matcher_for(d.shape, o);
    let mb = if o.match_base && !has_slash {
        match o.mode {
            Mode::Posix => MatcherFn::BasenamePosixThenBase,
            Mode::Windows => MatcherFn::BasenameWindowsThenBase,
        }
    } else {
        base
    };
    &&& p.code@ == e.code
    &&& p.pool@ == d.pool
    &&& classes_view(p.classes@) == e.classes
    &&& p.alt_table@ == e.alts
    &&& p.suffix_table@ == d.suffixes
    &&& p.ext_table@ == d.exts
    &&& p.negated == negated
    &&& p.has_slash == has_slash
    &&& p.prefilter == e.best
    &&& p.shape == d.shape
    &&& p.base_matcher_fn == base
    &&& p.matcher_fn == if negated {
        MatcherFn::NegateThenBase
    } else {
        mb
    }
}

/// The emitted tables are small enough for their `u32` offsets.
pub open spec fn emission_fits(e: Emission) -> bool {
    small_sizes(e.code.len() as int, e.pool.len() as int, e.classes.len() as int, e.alts.len() as int)
}

/// The pattern parses and its program fits.
pub open spec fn compiles(pattern: Seq<u8>, opts: MatchOptions) -> bool {
    match pattern_spec(pattern, opts) {
        PRes::Fail(k, p) => false,
        PRes::Done(v, _) => emission_fits(emit_seq(no_emission(), v.1, true, opts.nocase)),
    }
}

/// Compiling a pattern: its parse, the program, or the rejection.
pub open spec fn compiled_ok(pattern: Seq<u8>, opts: MatchOptions, r: Result<CompiledGlob, ParseError>) -> bool {
    match pattern_spec(pattern, opts) {
        PRes::Fail(k, p) => r matches Err(e) && err_is(e, k, p),
        PRes::Done(v, _) => if emission_fits(emit_seq(no_emission(), v.1, true, opts.nocase)) {
            r matches Ok(g) && g.opts == opts && g.program.wf() && program_for(
                g.program,
                v.1,
                v.0,
                seq_slash(v.1),
                opts,
            )
        } else {
            r matches Err(e) && err_is(e, PErr::TooLong, 0)
        },
    }
}

impl CompiledGlob {
    /// Parses and compiles `pattern` under `opts`.
    pub fn new(pattern: &str, opts: MatchOptions) -> (r: Result<CompiledGlob, ParseError>)
        ensures
            compiled_ok(pattern.spec_bytes(), opts, r),
    {
        let ast = match parse(pattern, &opts) {
            Ok(a) => a,
            Err(e) => return Err(e),
        };
        let mut c = Compiler {
            code: Vec::new(),
            pool: Vec::new(),
            classes: Vec::new(),
            alt_table: Vec::new(),
            opts: &opts,
            best_literal: None,
        };
        proof {
            assert(classes_view(c.classes@) =~= Seq::<Set<u8>>::empty());
            assert(c.em() == no_emission());
            assert(c.good());
        }
        c.emit_seq(ast.nodes.as_slice(), true);
        let limit: usize = 0xFFFF_FFFF;
        if c.code.len() > limit || c.pool.len() > limit || c.classes.len() > limit
            || c.alt_table.len() > limit {
            return Err(crate::parse::too_long());
        }
        let ghost e = c.em();
        assert(c.ok());
        let prefilter = c.best_literal;
        let mut program = Program {
            code: c.code,
            pool: c.pool,
            classes: c.classes,
            alt_table: c.alt_table,
            suffix_table: Vec::new(),
            ext_table: Vec::new(),
            negated: ast.negated,
            has_slash: ast.has_slash,
            prefilter,
            shape: FastShape::NoShape,
            matcher_fn: MatcherFn::AnchoredDispatch,
            base_matcher_fn: MatcherFn::AnchoredDispatch,
        };
        proof {
            lemma_detect_ok(program.code@, program.pool@, program.alt_table@, program.classes@.len() as int);
        }
        let shape = detect_shape(&mut program);
        program.shape = shape;
        let base = pick_matcher_fn(&program.shape, &opts);
        program.base_matcher_fn = base;
        let mb = if opts.match_base && !program.has_slash {
            crate::matcher::matcher_basename_then(base, opts.mode)
        } else {
            base
        };
        let final_fn = if program.negated {
            crate::matcher::matcher_negate_then(mb)
        } else {
            mb
        };
        program.matcher_fn = final_fn;
        proof {
            let d = detect(e.code, e.pool, e.alts);
            assert forall|pc: int| 0 <= pc < program.code@.len() implies instr_ok(program, #[trigger] program.code@[pc]) by {
                assert(fits_tables(e.code[pc], e.pool.len() as int, e.classes.len() as int, e.alts.len() as int));
            }
            assert(program.wf());
        }
        Ok(CompiledGlob { program, opts })
    }
}

} // verus!
