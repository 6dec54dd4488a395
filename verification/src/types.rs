use vstd::prelude::*;

verus! {

/// One parsed value of the notation.
///
/// Numeric variants keep the original textual digit spans rather than a
/// decoded machine number: arbitrary-precision integers and exact decimals
/// have no faithful fixed-width representation, and keeping the text is what
/// makes serialization reproduce the input byte for byte.
///
/// All text is held as owned byte vectors copied out of the input buffer at
/// tree-construction time, so a tree may outlive the buffer it was read from.
#[derive(Debug, PartialEq, Eq)]
pub enum Node {
    Nil,
    /// Optional namespace, then name.
    Symbol(Option<Vec<u8>>, Vec<u8>),
    /// Optional namespace, then name (without the leading colon).
    Keyword(Option<Vec<u8>>, Vec<u8>),
    /// The literal text, `true` or `false`.
    Bool(Vec<u8>),
    /// Digit span (optionally signed), and the arbitrary-precision flag
    /// (a trailing `N` in the source, stripped from the span).
    Int(Vec<u8>, bool),
    /// Integral part (may be empty), fractional part, exponent part (may be
    /// empty), and the exact-decimal flag (a trailing `M`, stripped).
    Float(Vec<u8>, Vec<u8>, Vec<u8>, bool),
    /// A character literal's code point.
    Char(char),
    /// String content between the quotes, kept byte for byte (escape
    /// sequences are not decoded).
    String(Vec<u8>),
    List(Vec<Node>),
    Vector(Vec<Node>),
    /// Brace-delimited collection; children in source order, alternating
    /// keys and values. No pairing or key-uniqueness check is made here.
    MapLit(Vec<Node>),
    /// `#{`-prefixed collection; children in source order, duplicates kept.
    SetLit(Vec<Node>),
    /// Tag text (without the leading `#`) and the tagged value.
    Tagged(Vec<u8>, Box<Node>),
    /// A `#_`-prefixed value: parsed for validity, dropped when a containing
    /// collection assembles its children.
    Discard(Box<Node>),
}

/// The mathematical model of a [`Node`] tree: the same shape over `Seq<u8>`.
/// Contracts and the round-trip laws are stated over this type.
pub enum GNode {
    Nil,
    Symbol(Option<Seq<u8>>, Seq<u8>),
    Keyword(Option<Seq<u8>>, Seq<u8>),
    Bool(Seq<u8>),
    Int(Seq<u8>, bool),
    Float(Seq<u8>, Seq<u8>, Seq<u8>, bool),
    Char(char),
    String(Seq<u8>),
    List(Seq<GNode>),
    Vector(Seq<GNode>),
    MapLit(Seq<GNode>),
    SetLit(Seq<GNode>),
    Tagged(Seq<u8>, Box<GNode>),
    Discard(Box<GNode>),
}

pub open spec fn opt_bytes_view(o: Option<Vec<u8>>) -> Option<Seq<u8>> {
    match o {
        Option::Some(v) => Option::Some(v@),
        Option::None => Option::None,
    }
}

pub open spec fn node_view(n: Node) -> GNode
    decreases n,
{
    match n {
        Node::Nil => GNode::Nil,
        Node::Symbol(ns, nm) => GNode::Symbol(opt_bytes_view(ns), nm@),
        Node::Keyword(ns, nm) => GNode::Keyword(opt_bytes_view(ns), nm@),
        Node::Bool(t) => GNode::Bool(t@),
        Node::Int(d, p) => GNode::Int(d@, p),
        Node::Float(i, f, e, p) => GNode::Float(i@, f@, e@, p),
        Node::Char(c) => GNode::Char(c),
        Node::String(s) => GNode::String(s@),
        Node::List(v) => GNode::List(nodes_view(v@)),
        Node::Vector(v) => GNode::Vector(nodes_view(v@)),
        Node::MapLit(v) => GNode::MapLit(nodes_view(v@)),
        Node::SetLit(v) => GNode::SetLit(nodes_view(v@)),
        Node::Tagged(t, b) => GNode::Tagged(t@, Box::new(node_view(*b))),
        Node::Discard(b) => GNode::Discard(Box::new(node_view(*b))),
    }
}

pub open spec fn nodes_view(s: Seq<Node>) -> Seq<GNode>
    decreases s,
{
    if s.len() == 0 {
        Seq::empty()
    } else {
        seq![node_view(s[0])] + nodes_view(s.skip(1))
    }
}

impl View for Node {
    type V = GNode;

    open spec fn view(&self) -> GNode {
        node_view(*self)
    }
}

/// `nodes_view` maps each element: the index form used throughout the proofs.
pub proof fn lemma_nodes_view_index(s: Seq<Node>)
    ensures
        nodes_view(s).len() == s.len(),
        forall|i: int| 0 <= i < s.len() ==> nodes_view(s)[i] == node_view(s[i]),
    decreases s,
{
    if s.len() > 0 {
        lemma_nodes_view_index(s.skip(1));
    }
}

/// Appending one node commutes with `nodes_view`.
pub proof fn lemma_nodes_view_push(s: Seq<Node>, n: Node)
    ensures
        nodes_view(s.push(n)) == nodes_view(s).push(node_view(n)),
    decreases s,
{
    if s.len() == 0 {
        assert(s.push(n).skip(1) =~= Seq::<Node>::empty());
        assert(nodes_view(s.push(n).skip(1)) =~= Seq::<GNode>::empty());
        assert(s.push(n)[0] == n);
        assert(nodes_view(s.push(n)) =~= nodes_view(s).push(node_view(n)));
    } else {
        assert(s.push(n).skip(1) =~= s.skip(1).push(n));
        lemma_nodes_view_push(s.skip(1), n);
        assert(nodes_view(s.push(n)) =~= nodes_view(s).push(node_view(n)));
    }
}

} // verus!
