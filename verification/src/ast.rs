use vstd::prelude::*;

use crate::util::ByteClass;

verus! {

/// The five extended-glob operators: `!(..)`, `?(..)`, `+(..)`, `*(..)`, `@(..)`.
#[derive(Clone, Copy, Debug, PartialEq, Eq, Structural)]
pub enum ExtKind {
    Negate,
    Optional,
    Plus,
    Star,
    At,
}

/// One element of a parsed pattern.
#[derive(Debug)]
pub enum Node {
    Literal(Vec<u8>),
    Sep,
    AnyChar,
    Star,
    Globstar,
    Class(ByteClass),
    Brace(Vec<Vec<Node>>),
    Extglob { kind: ExtKind, branches: Vec<Vec<Node>> },
}

/// A parsed pattern.
#[derive(Debug)]
pub struct Pattern {
    pub nodes: Vec<Node>,
    pub negated: bool,
    pub has_slash: bool,
}

/// The mathematical value of a `Node`: the same tree with sequences in place of vectors.
pub enum SNode {
    Literal(Seq<u8>),
    Sep,
    AnyChar,
    Star,
    Globstar,
    Class(Set<u8>),
    Brace(Seq<Seq<SNode>>),
    Extglob(ExtKind, Seq<Seq<SNode>>),
}

/// The bytes of a class.
pub open spec fn class_set(c: ByteClass) -> Set<u8> {
    Set::new(|x: u8| c.has(x))
}

pub open spec fn node_view(n: Node) -> SNode
    decreases n,
{
    match n {
        Node::Literal(v) => SNode::Literal(v@),
        Node::Sep => SNode::Sep,
        Node::AnyChar => SNode::AnyChar,
        Node::Star => SNode::Star,
        Node::Globstar => SNode::Globstar,
        Node::Class(c) => SNode::Class(class_set(c)),
        Node::Brace(bs) => SNode::Brace(branches_view(bs@)),
        Node::Extglob { kind, branches } => SNode::Extglob(kind, branches_view(branches@)),
    }
}

pub open spec fn nodes_view(s: Seq<Node>) -> Seq<SNode>
    decreases s,
{
    if s.len() == 0 {
        Seq::empty()
    } else {
        nodes_view(s.subrange(0, s.len() - 1)).push(node_view(s[s.len() - 1]))
    }
}

pub open spec fn branches_view(s: Seq<Vec<Node>>) -> Seq<Seq<SNode>>
    decreases s,
{
    if s.len() == 0 {
        Seq::empty()
    } else {
        branches_view(s.subrange(0, s.len() - 1)).push(nodes_view(s[s.len() - 1]@))
    }
}

pub proof fn lemma_nodes_view_push(s: Seq<Node>, n: Node)
    ensures
        nodes_view(s.push(n)) == nodes_view(s).push(node_view(n)),
{
    assert(s.push(n).subrange(0, s.len() as int) =~= s);
}

pub proof fn lemma_branches_view_push(s: Seq<Vec<Node>>, b: Vec<Node>)
    ensures
        branches_view(s.push(b)) == branches_view(s).push(nodes_view(b@)),
{
    assert(s.push(b).subrange(0, s.len() as int) =~= s);
}

pub proof fn lemma_nodes_view_len(s: Seq<Node>)
    ensures
        nodes_view(s).len() == s.len(),
        forall|i: int| 0 <= i < s.len() ==> #[trigger] nodes_view(s)[i] == node_view(s[i]),
    decreases s.len(),
{
    if s.len() > 0 {
        lemma_nodes_view_len(s.subrange(0, s.len() - 1));
    }
}

pub proof fn lemma_branches_view_len(s: Seq<Vec<Node>>)
    ensures
        branches_view(s).len() == s.len(),
        forall|i: int| 0 <= i < s.len() ==> #[trigger] branches_view(s)[i] == nodes_view(s[i]@),
    decreases s.len(),
{
    if s.len() > 0 {
        lemma_branches_view_len(s.subrange(0, s.len() - 1));
    }
}

pub proof fn lemma_nodes_view_concat(a: Seq<Node>, c: Seq<Node>)
    ensures
        nodes_view(a + c) == nodes_view(a) + nodes_view(c),
    decreases c.len(),
{
    if c.len() == 0 {
        assert(a + c =~= a);
        assert(nodes_view(c) =~= Seq::<SNode>::empty());
        assert(nodes_view(a) + nodes_view(c) =~= nodes_view(a));
    } else {
        let c1 = c.subrange(0, c.len() - 1);
        lemma_nodes_view_concat(a, c1);
        assert((a + c).subrange(0, (a + c).len() - 1) =~= a + c1);
        assert((a + c)[(a + c).len() - 1] == c[c.len() - 1]);
        assert(nodes_view(a) + nodes_view(c) =~= (nodes_view(a) + nodes_view(c1)).push(
            node_view(c[c.len() - 1]),
        ));
    }
}

} // verus!
