use vstd::prelude::*;
use vstd::string::StringSliceAdditionalSpecFns;

use crate::ast::{
    lemma_branches_view_len, lemma_nodes_view_len, node_view, nodes_view, branches_view, ExtKind,
    Node, SNode,
};
use crate::options::{sep_spec, MatchOptions, Mode};
use crate::util::ByteClass;
use vstd::string::StrSliceExecFns;
use vstd::utf8::{decode_utf8, encode_utf8_decode_utf8, encode_utf8_valid_utf8, valid_utf8};
use crate::parse::{err_is, parse, pattern_spec, PRes, ParseError};

verus! {

/// The bytes a regular expression must escape.
pub open spec fn re_special(c: u8) -> bool {
    c == 46u8 || c == 94u8 || c == 36u8 || c == 43u8 || c == 42u8 || c == 63u8 || c == 40u8
        || c == 41u8 || c == 91u8 || c == 93u8 || c == 123u8 || c == 125u8 || c == 124u8 || c
        == 92u8
}

/// One literal byte as regular-expression text.
pub open spec fn re_byte(c: u8) -> Seq<char> {
    if re_special(c) {
        seq!['\\', c as char]
    } else {
        seq![c as char]
    }
}

/// Literal bytes, one character each, as regular-expression text.
pub open spec fn re_bytes(b: Seq<u8>) -> Seq<char>
    decreases b.len(),
{
    if b.len() == 0 {
        Seq::empty()
    } else {
        re_bytes(b.subrange(0, b.len() - 1)) + re_byte(b[b.len() - 1])
    }
}

/// The characters a regular expression must escape.
pub open spec fn re_special_char(c: char) -> bool {
    c == '.' || c == '^' || c == '$' || c == '+' || c == '*' || c == '?' || c == '(' || c == ')'
        || c == '[' || c == ']' || c == '{' || c == '}' || c == '|' || c == '\\'
}

/// Literal text as regular-expression text.
pub open spec fn re_chars(cs: Seq<char>) -> Seq<char>
    decreases cs.len(),
{
    if cs.len() == 0 {
        Seq::empty()
    } else {
        re_chars(cs.drop_last()) + if re_special_char(cs.last()) {
            seq!['\\', cs.last()]
        } else {
            seq![cs.last()]
        }
    }
}

/// All bytes of `b` are ASCII.
pub open spec fn ascii_bytes(b: Seq<u8>) -> bool {
    forall|i: int| 0 <= i < b.len() ==> b[i] < 128
}

/// Literal bytes as regular-expression text: text with non-ASCII characters is decoded from
/// UTF-8, so each character stays one character.
pub open spec fn re_lit(b: Seq<u8>) -> Seq<char> {
    if !ascii_bytes(b) && valid_utf8(b) {
        re_chars(decode_utf8(b))
    } else {
        re_bytes(b)
    }
}

/// A hexadecimal digit.
pub open spec fn hex_char(d: u8) -> char {
    if d < 10 {
        ((48 + d) as u8) as char
    } else {
        ((87 + d) as u8) as char
    }
}

/// The members below `k` of a class, as `\xHH` escapes; separators are left out.
pub open spec fn re_class_items(m: Set<u8>, o: MatchOptions, k: int) -> Seq<char>
    decreases k,
{
    if k <= 0 {
        Seq::empty()
    } else {
        let b = (k - 1) as u8;
        re_class_items(m, o, k - 1) + if m.contains(b) && !sep_spec(o.mode, b) {
            seq!['\\', 'x', hex_char(b / 16), hex_char(b % 16)]
        } else {
            Seq::empty()
        }
    }
}

/// A class holds a byte outside ASCII.
pub open spec fn has_high(m: Set<u8>) -> bool {
    exists|b: u8| 128 <= b && m.contains(b)
}

/// A class as a regular-expression character class: its ASCII members, and every
/// non-ASCII character when it holds a non-ASCII byte.
pub open spec fn re_class(m: Set<u8>, o: MatchOptions) -> Seq<char> {
    seq!['['] + re_class_items(m, o, 128) + (if has_high(m) {
        seq!['\\', 'u', '0', '0', '8', '0', '-', '\\', 'u', 'f', 'f', 'f', 'f']
    } else {
        Seq::empty()
    }) + seq![']']
}

/// A separator as regular-expression text.
pub open spec fn re_sep(o: MatchOptions) -> Seq<char> {
    if o.mode == Mode::Windows {
        seq!['[', '/', '\\', '\\', ']']
    } else {
        seq!['/']
    }
}

/// One byte of a path segment.
pub open spec fn re_segment_char(o: MatchOptions) -> Seq<char> {
    if o.mode == Mode::Windows {
        seq!['[', '^', '/', '\\', '\\', ']']
    } else {
        seq!['[', '^', '/', ']']
    }
}

/// One element as regular-expression text.
pub open spec fn re_node(n: SNode, o: MatchOptions) -> Seq<char>
    decreases n,
{
    match n {
        SNode::Literal(b) => re_lit(b),
        SNode::Sep => re_sep(o),
        SNode::AnyChar => re_segment_char(o),
        SNode::Star => re_segment_char(o) + seq!['*'],
        SNode::Globstar => seq!['.', '*'],
        SNode::Class(m) => re_class(m, o),
        SNode::Brace(brs) => seq!['(', '?', ':'] + re_alts(brs, o) + seq![')'],
        SNode::Extglob(k, brs) => if k == ExtKind::Negate {
            seq!['(', '?', ':', '(', '?', '!', '(', '?', ':'] + re_alts(brs, o) + seq![
                ')',
                '(',
                '?',
                ':',
            ] + re_sep(o) + seq!['|', '$', ')', ')'] + re_segment_char(o) + seq!['*', ')']
        } else {
            seq!['(', '?', ':'] + re_alts(brs, o) + seq![')'] + match k {
                ExtKind::Optional => seq!['?'],
                ExtKind::Plus => seq!['+'],
                ExtKind::Star => seq!['*'],
                _ => Seq::empty(),
            }
        },
    }
}

/// Elements in order.
pub open spec fn re_seq(s: Seq<SNode>, o: MatchOptions) -> Seq<char>
    decreases s,
{
    if s.len() == 0 {
        Seq::empty()
    } else {
        re_seq(s.subrange(0, s.len() - 1), o) + re_node(s[s.len() - 1], o)
    }
}

/// Branches separated by `|`.
pub open spec fn re_alts(brs: Seq<Seq<SNode>>, o: MatchOptions) -> Seq<char>
    decreases brs,
{
    if brs.len() == 0 {
        Seq::empty()
    } else if brs.len() == 1 {
        re_seq(brs[0], o)
    } else {
        re_alts(brs.subrange(0, brs.len() - 1), o) + seq!['|'] + re_seq(brs[brs.len() - 1], o)
    }
}

/// The regular-expression source of a parsed pattern: anchored at both ends unless
/// `contains` is set, the body grouped, and a negated pattern as a negative lookahead.
pub open spec fn re_source(negated: bool, nodes: Seq<SNode>, o: MatchOptions) -> Seq<char> {
    let body = re_seq(nodes, o);
    let inner = if negated {
        seq!['(', '?', '!'] + body + seq![')', '.', '*']
    } else {
        body
    };
    let anchor_start = if o.contains {
        Seq::empty()
    } else {
        seq!['^']
    };
    let anchor_end = if o.contains {
        Seq::empty()
    } else {
        seq!['$']
    };
    anchor_start + seq!['(', '?', ':'] + inner + seq![')'] + anchor_end
}

/// `String::from_iter`: the string made of the characters `v`, in order.
#[verifier::external_body]
fn string_of(v: &[char]) -> (r: String)
    ensures
        r@ == v@,
{
    v.iter().collect()
}

fn push_chars(out: &mut Vec<char>, s: &[char])
    ensures
        final(out)@ == old(out)@ + s@,
{
    let mut i: usize = 0;
    while i < s.len()
        invariant
            i <= s@.len(),
            out@ == old(out)@ + s@.subrange(0, i as int),
        decreases s@.len() - i,
    {
        out.push(s[i]);
        i = i + 1;
        assert(out@ =~= old(out)@ + s@.subrange(0, i as int));
    }
    assert(s@.subrange(0, i as int) =~= s@);
}

/// `std::str::from_utf8`: the text the bytes `v` encode, when they are valid UTF-8.
#[verifier::external_body]
fn text_of(v: &[u8]) -> (r: Option<&str>)
    ensures
        r matches Some(t) ==> t.spec_bytes() == v@,
        r is None ==> !valid_utf8(v@),
{
    std::str::from_utf8(v).ok()
}

fn is_re_special(c: char) -> (r: bool)
    ensures
        r == re_special_char(c),
{
    c == '.' || c == '^' || c == '$' || c == '+' || c == '*' || c == '?' || c == '(' || c == ')'
        || c == '[' || c == ']' || c == '{' || c == '}' || c == '|' || c == '\\'
}

fn emit_bytes(b: &[u8], out: &mut Vec<char>)
    ensures
        final(out)@ == old(out)@ + re_bytes(b@),
{
    let mut i: usize = 0;
    while i < b.len()
        invariant
            i <= b@.len(),
            out@ == old(out)@ + re_bytes(b@.subrange(0, i as int)),
        decreases b@.len() - i,
    {
        let c = b[i];
        if c == 46u8 || c == 94u8 || c == 36u8 || c == 43u8 || c == 42u8 || c == 63u8 || c
            == 40u8 || c == 41u8 || c == 91u8 || c == 93u8 || c == 123u8 || c == 125u8 || c
            == 124u8 || c == 92u8 {
            out.push('\\');
        }
        out.push(c as char);
        proof {
            assert(b@.subrange(0, i + 1).subrange(0, i as int) =~= b@.subrange(0, i as int));
        }
        i = i + 1;
        assert(out@ =~= old(out)@ + re_bytes(b@.subrange(0, i as int)));
    }
    assert(b@.subrange(0, i as int) =~= b@);
}

fn emit_lit(b: &[u8], out: &mut Vec<char>)
    ensures
        final(out)@ == old(out)@ + re_lit(b@),
{
    let mut ascii = true;
    let mut i: usize = 0;
    while i < b.len()
        invariant
            i <= b@.len(),
            ascii == forall|j: int| 0 <= j < i ==> b@[j] < 128,
        decreases b@.len() - i,
    {
        if b[i] >= 128 {
            ascii = false;
        }
        i = i + 1;
    }
    if ascii {
        emit_bytes(b, out);
        return;
    }
    match text_of(b) {
        None => {
            emit_bytes(b, out);
        },
        Some(t) => {
            proof {
                encode_utf8_decode_utf8(t@);
                encode_utf8_valid_utf8(t@);
                assert(decode_utf8(b@) == t@);
            }
            let n = t.unicode_len();
            let mut k: usize = 0;
            while k < n
                invariant
                    n == t@.len(),
                    k <= n,
                    out@ == old(out)@ + re_chars(t@.subrange(0, k as int)),
                decreases n - k,
            {
                let c = t.get_char(k);
                if is_re_special(c) {
                    out.push('\\');
                }
                out.push(c);
                proof {
                    let w = t@.subrange(0, k + 1);
                    assert(w.drop_last() =~= t@.subrange(0, k as int));
                    assert(w.last() == c);
                }
                k = k + 1;
                assert(out@ =~= old(out)@ + re_chars(t@.subrange(0, k as int)));
            }
            assert(t@.subrange(0, k as int) =~= t@);
        },
    }
}

fn hex(d: u8) -> (r: char)
    requires
        d < 16,
    ensures
        r == hex_char(d),
{
    if d < 10 {
        (48u8 + d) as char
    } else {
        (87u8 + d) as char
    }
}

fn push_sep(out: &mut Vec<char>, opts: &MatchOptions)
    ensures
        final(out)@ == old(out)@ + re_sep(*opts),
{
    if opts.mode == Mode::Windows {
        push_chars(out, &['[', '/', '\\', '\\', ']']);
    } else {
        out.push('/');
    }
}

fn emit_class(c: &ByteClass, out: &mut Vec<char>, opts: &MatchOptions)
    ensures
        final(out)@ == old(out)@ + re_class(crate::ast::class_set(*c), *opts),
{
    let ghost m = crate::ast::class_set(*c);
    let ghost start = old(out)@;
    out.push('[');
    let mut k: u32 = 0;
    while k < 128
        invariant
            k <= 128,
            m == crate::ast::class_set(*c),
            out@ == start + seq!['['] + re_class_items(m, *opts, k as int),
        decreases 128 - k,
    {
        let b = k as u8;
        if c.contains(b) && !opts.mode.is_sep(b) {
            out.push('\\');
            out.push('x');
            out.push(hex(b / 16));
            out.push(hex(b % 16));
        }
        k = k + 1;
        assert(out@ =~= start + seq!['['] + re_class_items(m, *opts, k as int));
    }
    let mut high = false;
    let mut j: u32 = 128;
    while j < 256
        invariant
            128 <= j <= 256,
            m == crate::ast::class_set(*c),
            high == exists|x: u8| 128 <= x < j && m.contains(x),
        decreases 256 - j,
    {
        let x = j as u8;
        let hit = c.contains(x);
        proof {
            assert(x == j);
            assert(hit == m.contains(x));
            if !high && !hit {
                assert forall|y: u8| 128 <= y < j + 1 implies !m.contains(y) by {
                    if y == x {
                    } else {
                        assert(!(128 <= y < j && m.contains(y)));
                    }
                }
            }
        }
        if hit {
            high = true;
        }
        j = j + 1;
    }
    if high {
        push_chars(out, &['\\', 'u', '0', '0', '8', '0', '-', '\\', 'u', 'f', 'f', 'f', 'f']);
    }
    out.push(']');
    assert(out@ =~= start + re_class(m, *opts));
}

fn emit_seq(nodes: &[Node], out: &mut Vec<char>, opts: &MatchOptions)
    ensures
        final(out)@ == old(out)@ + re_seq(nodes_view(nodes@), *opts),
    decreases nodes@,
{
    let ghost v = nodes_view(nodes@);
    proof {
        lemma_nodes_view_len(nodes@);
        assert(v.subrange(0, 0) =~= Seq::<SNode>::empty());
    }
    let mut i: usize = 0;
    while i < nodes.len()
        invariant
            i <= nodes@.len(),
            v == nodes_view(nodes@),
            v.len() == nodes@.len(),
            forall|j: int| 0 <= j < nodes@.len() ==> #[trigger] v[j] == node_view(nodes@[j]),
            out@ == old(out)@ + re_seq(v.subrange(0, i as int), *opts),
        decreases nodes@.len() - i,
    {
        emit_node(&nodes[i], out, opts);
        proof {
            assert(v.subrange(0, i + 1).subrange(0, i as int) =~= v.subrange(0, i as int));
        }
        i = i + 1;
    }
    proof {
        assert(v.subrange(0, i as int) =~= v);
    }
}

fn emit_alts(branches: &[Vec<Node>], out: &mut Vec<char>, opts: &MatchOptions)
    ensures
        final(out)@ == old(out)@ + re_alts(branches_view(branches@), *opts),
    decreases branches@,
{
    let ghost v = branches_view(branches@);
    proof {
        lemma_branches_view_len(branches@);
        assert(v.subrange(0, 0) =~= Seq::<Seq<SNode>>::empty());
    }
    let mut i: usize = 0;
    while i < branches.len()
        invariant
            i <= branches@.len(),
            v == branches_view(branches@),
            v.len() == branches@.len(),
            forall|j: int| 0 <= j < branches@.len() ==> #[trigger] v[j] == nodes_view(branches@[j]@),
            out@ == old(out)@ + re_alts(v.subrange(0, i as int), *opts),
        decreases branches@.len() - i,
    {
        if i > 0 {
            out.push('|');
        }
        emit_seq(branches[i].as_slice(), out, opts);
        proof {
            let w = v.subrange(0, i + 1);
            assert(w.subrange(0, i as int) =~= v.subrange(0, i as int));
            if i == 0 {
                assert(re_alts(v.subrange(0, 0), *opts) =~= Seq::<char>::empty());
            }
        }
        i = i + 1;
        assert(out@ =~= old(out)@ + re_alts(v.subrange(0, i as int), *opts));
    }
    proof {
        assert(v.subrange(0, i as int) =~= v);
    }
}

fn emit_node(n: &Node, out: &mut Vec<char>, opts: &MatchOptions)
    ensures
        final(out)@ == old(out)@ + re_node(node_view(*n), *opts),
    decreases *n,
{
    let windows = opts.mode == Mode::Windows;
    match n {
        Node::Literal(b) => {
            emit_lit(b.as_slice(), out);
        },
        Node::Sep => push_sep(out, opts),
        Node::AnyChar => {
            if windows {
                push_chars(out, &['[', '^', '/', '\\', '\\', ']']);
            } else {
                push_chars(out, &['[', '^', '/', ']']);
            }
        },
        Node::Star => {
            if windows {
                push_chars(out, &['[', '^', '/', '\\', '\\', ']', '*']);
            } else {
                push_chars(out, &['[', '^', '/', ']', '*']);
            }
        },
        Node::Globstar => push_chars(out, &['.', '*']),
        Node::Class(c) => emit_class(c, out, opts),
        Node::Brace(branches) => {
            push_chars(out, &['(', '?', ':']);
            emit_alts(branches.as_slice(), out, opts);
            out.push(')');
        },
        Node::Extglob { kind, branches } => {
            if *kind == ExtKind::Negate {
                push_chars(out, &['(', '?', ':', '(', '?', '!', '(', '?', ':']);
                emit_alts(branches.as_slice(), out, opts);
                push_chars(out, &[')', '(', '?', ':']);
                push_sep(out, opts);
                push_chars(out, &['|', '$', ')', ')']);
                if windows {
                    push_chars(out, &['[', '^', '/', '\\', '\\', ']', '*', ')']);
                } else {
                    push_chars(out, &['[', '^', '/', ']', '*', ')']);
                }
            } else {
                push_chars(out, &['(', '?', ':']);
                emit_alts(branches.as_slice(), out, opts);
                out.push(')');
                match kind {
                    ExtKind::Optional => out.push('?'),
                    ExtKind::Plus => out.push('+'),
                    ExtKind::Star => out.push('*'),
                    _ => {},
                }
            }
        },
    }
}

/// The regular-expression source text equivalent to `pattern` under `opts`.
pub fn make_re_source(pattern: &str, opts: &MatchOptions) -> (r: Result<String, ParseError>)
    ensures
        match pattern_spec(pattern.spec_bytes(), *opts) {
            PRes::Fail(k, p) => r matches Err(e) && err_is(e, k, p),
            PRes::Done(v, _) => r matches Ok(s) && s@ == re_source(v.0, v.1, *opts),
        },
{
    let ast = match parse(pattern, opts) {
        Ok(a) => a,
        Err(e) => return Err(e),
    };
    let mut s: Vec<char> = Vec::new();
    if !opts.contains {
        s.push('^');
    }
    push_chars(&mut s, &['(', '?', ':']);
    if ast.negated {
        push_chars(&mut s, &['(', '?', '!']);
    }
    emit_seq(ast.nodes.as_slice(), &mut s, opts);
    if ast.negated {
        push_chars(&mut s, &[')', '.', '*']);
    }
    s.push(')');
    if !opts.contains {
        s.push('$');
    }
    let r = string_of(s.as_slice());
    proof {
        let v = nodes_view(ast.nodes@);
        assert(s@ =~= re_source(ast.negated, v, *opts));
    }
    Ok(r)
}

} // verus!
