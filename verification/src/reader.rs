//! The reader: a recursive-descent consumer of the lexical-unit stream.
//! Nested delimiter regions become collection nodes (a unit of the same
//! bracket family closes the region), atoms become literal nodes via the
//! literal grammar, a `#tag` atom composes with the following value into a
//! tagged node, `#` followed by a brace collection is a set, and a `#_`
//! value is parsed but dropped when a collection assembles its children.

use vstd::prelude::*;
use vstd::slice::{slice_subrange, slice_to_vec};
use crate::types::{GNode, Node, nodes_view, lemma_nodes_view_push};
use crate::atoms::{
    nil_text, atom_node_spec, parse_keyword, parse_symbol, valid_bool, parse_int, parse_float,
};
use crate::lexer::{Lexeme, Token, TokenV, toks_view, lex, lex_spec, get_matching_paren};
use crate::writer::copy_bytes;

verus! {

/// Why a read failed.
pub enum RErr {
    /// No lexical units at all.
    EmptyInput,
    /// An opened collection or string was never closed, or a prefix marker
    /// had nothing after it.
    UnexpectedEof,
    /// An atom (its text carried here) matched no literal grammar, or `#`
    /// stood before a value that is not a brace collection.
    Malformed(Seq<u8>),
}

/// Why a read failed: the executable form of [`RErr`].
#[derive(Debug, PartialEq, Eq)]
pub enum ReadError {
    EmptyInput,
    UnexpectedEof,
    Malformed(Vec<u8>),
}

impl View for ReadError {
    type V = RErr;

    open spec fn view(&self) -> RErr {
        match self {
            ReadError::EmptyInput => RErr::EmptyInput,
            ReadError::UnexpectedEof => RErr::UnexpectedEof,
            ReadError::Malformed(t) => RErr::Malformed(t@),
        }
    }
}

pub open spec fn is_coll_kind(k: Lexeme) -> bool {
    k == Lexeme::ListParen || k == Lexeme::VecParen || k == Lexeme::MapParen
}

pub open spec fn mk_coll(k: Lexeme, cs: Seq<GNode>) -> GNode {
    if k == Lexeme::ListParen {
        GNode::List(cs)
    } else if k == Lexeme::VecParen {
        GNode::Vector(cs)
    } else {
        GNode::MapLit(cs)
    }
}

pub open spec fn discard_text() -> Seq<u8> {
    seq![35u8, 95u8]
}

pub open spec fn hash_text() -> Seq<u8> {
    seq![35u8]
}

/// Resolves one value from the front of the unit stream, returning it with
/// the remaining units.
pub open spec fn parse_next(ts: Seq<TokenV>) -> Result<(GNode, Seq<TokenV>), RErr>
    decreases ts.len(), 0int,
{
    if ts.len() == 0 {
        Result::Err(RErr::UnexpectedEof)
    } else {
        let t = ts[0];
        if is_coll_kind(t.kind) {
            match parse_items(t.kind, ts.skip(1)) {
                Result::Ok((cs, rest)) => Result::Ok((mk_coll(t.kind, cs), rest)),
                Result::Err(e) => Result::Err(e),
            }
        } else if t.kind == Lexeme::String {
            Result::Ok((GNode::String(t.text), ts.skip(1)))
        } else if t.text == discard_text() {
            match parse_next(ts.skip(1)) {
                Result::Ok((n, rest)) => Result::Ok((GNode::Discard(Box::new(n)), rest)),
                Result::Err(e) => Result::Err(e),
            }
        } else if t.text.len() >= 2 && t.text[0] == 35 {
            match parse_next(ts.skip(1)) {
                Result::Ok((n, rest)) => Result::Ok(
                    (GNode::Tagged(t.text.skip(1), Box::new(n)), rest),
                ),
                Result::Err(e) => Result::Err(e),
            }
        } else if t.text == hash_text() {
            match parse_next(ts.skip(1)) {
                Result::Ok((GNode::MapLit(cs), rest)) => Result::Ok((GNode::SetLit(cs), rest)),
                Result::Ok(_) => Result::Err(RErr::Malformed(t.text)),
                Result::Err(e) => Result::Err(e),
            }
        } else {
            match atom_node_spec(t.text) {
                Option::Some(n) => Result::Ok((n, ts.skip(1))),
                Option::None => Result::Err(RErr::Malformed(t.text)),
            }
        }
    }
}

/// Resolves children until a unit of family `k` closes the collection,
/// dropping discard forms. The `rest.len() < ts.len()` test only guards
/// termination; `lemma_parse_next_consumes` shows it always holds.
pub open spec fn parse_items(k: Lexeme, ts: Seq<TokenV>) -> Result<(Seq<GNode>, Seq<TokenV>), RErr>
    decreases ts.len(), 1int,
{
    if ts.len() == 0 {
        Result::Err(RErr::UnexpectedEof)
    } else if ts[0].kind == k {
        Result::Ok((seq![], ts.skip(1)))
    } else {
        match parse_next(ts) {
            Result::Ok((n, rest)) => if rest.len() < ts.len() {
                match parse_items(k, rest) {
                    Result::Ok((cs, rest2)) => Result::Ok(
                        (
                            if n is Discard {
                                cs
                            } else {
                                seq![n] + cs
                            },
                            rest2,
                        ),
                    ),
                    Result::Err(e) => Result::Err(e),
                }
            } else {
                Result::Err(RErr::UnexpectedEof)
            },
            Result::Err(e) => Result::Err(e),
        }
    }
}

/// A successful parse consumes at least one unit.
pub proof fn lemma_parse_next_consumes(ts: Seq<TokenV>)
    ensures
        parse_next(ts) matches Result::Ok((n, rest)) ==> rest.len() < ts.len(),
    decreases ts.len(), 0int,
{
    if ts.len() > 0 {
        let t = ts[0];
        if is_coll_kind(t.kind) {
            lemma_parse_items_consumes(t.kind, ts.skip(1));
        } else if t.kind == Lexeme::String {
        } else if t.text == discard_text() || (t.text.len() >= 2 && t.text[0] == 35) || t.text
            == hash_text() {
            lemma_parse_next_consumes(ts.skip(1));
        }
    }
}

pub proof fn lemma_parse_items_consumes(k: Lexeme, ts: Seq<TokenV>)
    ensures
        parse_items(k, ts) matches Result::Ok((cs, rest)) ==> rest.len() < ts.len(),
    decreases ts.len(), 1int,
{
    if ts.len() > 0 && ts[0].kind != k {
        lemma_parse_next_consumes(ts);
        match parse_next(ts) {
            Result::Ok((n, rest)) => {
                if rest.len() < ts.len() {
                    lemma_parse_items_consumes(k, rest);
                }
            },
            Result::Err(_) => {},
        }
    }
}

/// The whole read: tokenize, then resolve the first value; units after it
/// are ignored.
pub open spec fn read_spec(s: Seq<u8>) -> Result<GNode, RErr> {
    match lex_spec(s) {
        Option::None => Result::Err(RErr::UnexpectedEof),
        Option::Some(ts) => if ts.len() == 0 {
            Result::Err(RErr::EmptyInput)
        } else {
            match parse_next(ts) {
                Result::Ok((n, _)) => Result::Ok(n),
                Result::Err(e) => Result::Err(e),
            }
        },
    }
}

/// Wraps finished children in the collection node of the given family.
pub fn handle_collection(kind: Lexeme, collection: Vec<Node>) -> (r: Node)
    requires
        is_coll_kind(kind),
    ensures
        r@ == mk_coll(kind, nodes_view(collection@)),
{
    match kind {
        Lexeme::ListParen => Node::List(collection),
        Lexeme::VecParen => Node::Vector(collection),
        _ => Node::MapLit(collection),
    }
}

/// Composes a `#tag` atom with the value after it.
pub fn handle_tagged(text: &Vec<u8>, inner: Node) -> (r: Node)
    requires
        text@.len() >= 2,
    ensures
        r@ == GNode::Tagged(text@.skip(1), Box::new(inner@)),
{
    let tag = slice_to_vec(slice_subrange(text.as_slice(), 1, text.len()));
    proof {
        assert(tag@ =~= text@.skip(1));
    }
    Node::Tagged(tag, Box::new(inner))
}

/// Resolves an atom or string unit to its node via the literal grammar.
pub fn handle_atom(token: &Token) -> (r: Result<Node, ReadError>)
    requires
        token@.kind == Lexeme::Atom || token@.kind == Lexeme::String,
    ensures
        match r {
            Result::Ok(n) => (token@.kind == Lexeme::Atom && atom_node_spec(token@.text)
                == Option::Some(n@)) || (token@.kind == Lexeme::String && n@ == GNode::String(
                token@.text,
            )),
            Result::Err(e) => token@.kind == Lexeme::Atom && atom_node_spec(token@.text) is None
                && e@ == RErr::Malformed(token@.text),
        },
{
    match token.kind {
        Lexeme::String => Result::Ok(Node::String(copy_bytes(&token.text))),
        _ => {
            let s = token.text.as_slice();
            if token.text.len() == 3 && s[0] == 110 && s[1] == 105 && s[2] == 108 {
                proof {
                    assert(token@.text =~= nil_text());
                }
                Result::Ok(Node::Nil)
            } else {
                proof {
                    if token@.text == nil_text() {
                        assert(token@.text.len() == 3 && token@.text[0] == 110 && token@.text[1]
                            == 105 && token@.text[2] == 108);
                    }
                }
                if let Option::Some((ns, nm)) = parse_keyword(s) {
                    Result::Ok(Node::Keyword(ns, nm))
                } else if let Option::Some((ns, nm)) = parse_symbol(s) {
                    Result::Ok(Node::Symbol(ns, nm))
                } else if valid_bool(s) {
                    Result::Ok(Node::Bool(copy_bytes(&token.text)))
                } else if let Option::Some((d, p)) = parse_int(s, true) {
                    Result::Ok(Node::Int(d, p))
                } else if let Option::Some((i, f, e, p)) = parse_float(s, true) {
                    Result::Ok(Node::Float(i, f, e, p))
                } else {
                    Result::Err(ReadError::Malformed(copy_bytes(&token.text)))
                }
            }
        },
    }
}

/// Resolves one value starting at unit `i`, returning the node and the
/// index of the first unit after it.
pub fn read_ahead(ts: &Vec<Token>, i: usize) -> (r: Result<(Node, usize), ReadError>)
    requires
        i <= ts@.len(),
    ensures
        match r {
            Result::Ok(p) => i < p.1 <= ts@.len() && parse_next(toks_view(ts@).skip(i as int))
                == Result::Ok::<(GNode, Seq<TokenV>), RErr>(
                (p.0@, toks_view(ts@).skip(p.1 as int)),
            ),
            Result::Err(e) => parse_next(toks_view(ts@).skip(i as int)) == Result::Err::<
                (GNode, Seq<TokenV>),
                RErr,
            >(e@),
        },
    decreases ts@.len() - i,
{
    let ghost tv = toks_view(ts@);
    let n = ts.len();
    if i == n {
        proof {
            assert(tv.skip(i as int) =~= Seq::<TokenV>::empty());
        }
        return Result::Err(ReadError::UnexpectedEof);
    }
    proof {
        assert(tv.skip(i as int)[0] == tv[i as int]);
        assert(tv.skip(i as int).skip(1) =~= tv.skip(i as int + 1));
    }
    let kind = ts[i].kind;
    match get_matching_paren(&kind) {
        Option::Some(_) => {
            let mut collection: Vec<Node> = Vec::new();
            let mut j: usize = i + 1;
            loop
                invariant
                    i + 1 <= j <= n == ts@.len(),
                    tv == toks_view(ts@),
                    is_coll_kind(kind),
                    kind == tv[i as int].kind,
                    (match parse_items(kind, tv.skip(j as int)) {
                        Result::Ok(q) => parse_items(kind, tv.skip(i as int + 1))
                            == Result::Ok::<(Seq<GNode>, Seq<TokenV>), RErr>(
                            (nodes_view(collection@) + q.0, q.1),
                        ),
                        Result::Err(e) => parse_items(kind, tv.skip(i as int + 1)) == Result::Err::<
                            (Seq<GNode>, Seq<TokenV>),
                            RErr,
                        >(e),
                    }),
                decreases n - j,
            {
                proof {
                    assert(tv.skip(i as int)[0] == tv[i as int]);
                    assert(tv.skip(i as int).skip(1) =~= tv.skip(i as int + 1));
                }
                if j == n {
                    proof {
                        assert(tv.skip(j as int) =~= Seq::<TokenV>::empty());
                    }
                    return Result::Err(ReadError::UnexpectedEof);
                }
                proof {
                    assert(tv.skip(j as int)[0] == tv[j as int]);
                    assert(tv.skip(j as int).skip(1) =~= tv.skip(j as int + 1));
                }
                if ts[j].kind == kind {
                    proof {
                        assert(parse_items(kind, tv.skip(j as int)) == Result::Ok::<
                            (Seq<GNode>, Seq<TokenV>),
                            RErr,
                        >((Seq::<GNode>::empty(), tv.skip(j as int + 1))));
                        assert(nodes_view(collection@) + Seq::<GNode>::empty() =~= nodes_view(
                            collection@,
                        ));
                    }
                    let node = handle_collection(kind, collection);
                    return Result::Ok((node, j + 1));
                }
                match read_ahead(ts, j) {
                    Result::Ok((child, j2)) => {
                        proof {
                            assert(tv.skip(j2 as int).len() < tv.skip(j as int).len());
                            lemma_nodes_view_push(collection@, child);
                            assert(forall|cs: Seq<GNode>|
                                nodes_view(collection@) + (#[trigger] (seq![child@] + cs))
                                    =~= nodes_view(collection@).push(child@) + cs);
                        }
                        let is_discard = matches!(child, Node::Discard(_));
                        if !is_discard {
                            collection.push(child);
                        }
                        j = j2;
                    },
                    Result::Err(e) => {
                        return Result::Err(e);
                    },
                }
            }
        },
        Option::None => {
            let t = &ts[i];
            if kind == Lexeme::Atom && t.text.len() == 2 && t.text.as_slice()[0] == 35
                && t.text.as_slice()[1] == 95 {
                proof {
                    assert(t@.text =~= discard_text());
                }
                match read_ahead(ts, i + 1) {
                    Result::Ok((inner, j)) => Result::Ok((Node::Discard(Box::new(inner)), j)),
                    Result::Err(e) => Result::Err(e),
                }
            } else if kind == Lexeme::Atom && t.text.len() >= 2 && t.text.as_slice()[0] == 35 {
                proof {
                    assert(t@.text != discard_text());
                }
                match read_ahead(ts, i + 1) {
                    Result::Ok((inner, j)) => Result::Ok((handle_tagged(&t.text, inner), j)),
                    Result::Err(e) => Result::Err(e),
                }
            } else if kind == Lexeme::Atom && t.text.len() == 1 && t.text.as_slice()[0] == 35 {
                proof {
                    assert(t@.text =~= hash_text());
                    assert(t@.text != discard_text());
                }
                match read_ahead(ts, i + 1) {
                    Result::Ok((inner, j)) => match inner {
                        Node::MapLit(cs) => Result::Ok((Node::SetLit(cs), j)),
                        _ => Result::Err(ReadError::Malformed(copy_bytes(&t.text))),
                    },
                    Result::Err(e) => Result::Err(e),
                }
            } else {
                proof {
                    if t@.kind == Lexeme::Atom {
                        assert(t@.text != discard_text());
                        assert(t@.text != hash_text());
                    }
                }
                match handle_atom(t) {
                    Result::Ok(node) => Result::Ok((node, i + 1)),
                    Result::Err(e) => Result::Err(e),
                }
            }
        },
    }
}

/// Reads one value from raw notation text.
///
/// Fails with `EmptyInput` when no lexical units exist, `UnexpectedEof`
/// when a collection or string is left open (or a prefix marker dangles),
/// and `Malformed` when an atom matches no literal grammar. Text after the
/// first complete value is ignored.
pub fn edn_read(s: &[u8]) -> (r: Result<Node, ReadError>)
    ensures
        match r {
            Result::Ok(n) => read_spec(s@) == Result::Ok::<GNode, RErr>(n@),
            Result::Err(e) => read_spec(s@) == Result::Err::<GNode, RErr>(e@),
        },
{
    match lex(s) {
        Option::None => Result::Err(ReadError::UnexpectedEof),
        Option::Some(tokens) => {
            if tokens.len() == 0 {
                proof {
                    assert(toks_view(tokens@).len() == 0);
                }
                Result::Err(ReadError::EmptyInput)
            } else {
                proof {
                    assert(toks_view(tokens@).skip(0) =~= toks_view(tokens@));
                }
                match read_ahead(&tokens, 0) {
                    Result::Ok((node, _)) => Result::Ok(node),
                    Result::Err(e) => Result::Err(e),
                }
            }
        },
    }
}

} // verus!
