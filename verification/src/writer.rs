//! The writer: a pure, total serialization of a node tree back to canonical
//! notation text, the inverse of the reader on well-formed trees.

use vstd::prelude::*;
use vstd::slice::slice_to_vec;
use crate::types::{GNode, Node, nodes_view, lemma_nodes_view_index, lemma_nodes_view_push};
use crate::atoms::nil_text;

verus! {

/// A symbol or keyword body: `namespace/name`, or just the name.
pub open spec fn sym_text(ns: Option<Seq<u8>>, nm: Seq<u8>) -> Seq<u8> {
    match ns {
        Option::Some(x) => x + seq![47u8] + nm,
        Option::None => nm,
    }
}

/// The UTF-8 encoding of a code point.
pub open spec fn utf8_of(n: int) -> Seq<u8> {
    if n < 0x80 {
        seq![n as u8]
    } else if n < 0x800 {
        seq![(0xC0 + n / 0x40) as u8, (0x80 + n % 0x40) as u8]
    } else if n < 0x10000 {
        seq![(0xE0 + n / 0x1000) as u8, (0x80 + (n / 0x40) % 0x40) as u8, (0x80 + n % 0x40) as u8]
    } else {
        seq![
            (0xF0 + n / 0x40000) as u8,
            (0x80 + (n / 0x1000) % 0x40) as u8,
            (0x80 + (n / 0x40) % 0x40) as u8,
            (0x80 + n % 0x40) as u8,
        ]
    }
}

/// Canonical text of one node.
pub open spec fn swrite(n: GNode) -> Seq<u8>
    decreases n,
{
    match n {
        GNode::Nil => nil_text(),
        GNode::Bool(t) => t,
        GNode::Int(d, p) => if p {
            d.push(78)
        } else {
            d
        },
        GNode::Float(i, f, e, p) => {
            let base = i + (if f.len() > 0 {
                seq![46u8] + f
            } else {
                seq![]
            }) + (if e.len() > 0 {
                seq![69u8] + e
            } else {
                seq![]
            });
            if p {
                base.push(77)
            } else {
                base
            }
        },
        GNode::Char(c) => seq![92u8] + utf8_of(c as int),
        GNode::String(s) => seq![34u8] + s + seq![34u8],
        GNode::Keyword(ns, nm) => seq![58u8] + sym_text(ns, nm),
        GNode::Symbol(ns, nm) => sym_text(ns, nm),
        GNode::List(cs) => seq![40u8] + swrite_children(cs) + seq![41u8],
        GNode::Vector(cs) => seq![91u8] + swrite_children(cs) + seq![93u8],
        GNode::MapLit(cs) => seq![123u8] + swrite_children(cs) + seq![125u8],
        GNode::SetLit(cs) => seq![35u8, 123u8] + swrite_children(cs) + seq![125u8],
        GNode::Tagged(t, inner) => seq![35u8] + t + seq![32u8] + swrite(*inner),
        GNode::Discard(inner) => seq![35u8, 95u8, 32u8] + swrite(*inner),
    }
}

/// Children joined by a single space; empty collections render with no
/// interior space.
pub open spec fn swrite_children(cs: Seq<GNode>) -> Seq<u8>
    decreases cs,
{
    if cs.len() == 0 {
        seq![]
    } else if cs.len() == 1 {
        swrite(cs[0])
    } else {
        swrite(cs[0]) + seq![32u8] + swrite_children(cs.skip(1))
    }
}

/// Appending one child appends a separator (unless first) and its text.
pub proof fn lemma_join_snoc(cs: Seq<GNode>, x: GNode)
    ensures
        swrite_children(cs.push(x)) == if cs.len() == 0 {
            swrite(x)
        } else {
            swrite_children(cs) + seq![32u8] + swrite(x)
        },
    decreases cs,
{
    if cs.len() == 0 {
        assert(cs.push(x).len() == 1);
        assert(cs.push(x)[0] == x);
    } else {
        assert(cs.push(x)[0] == cs[0]);
        assert(cs.push(x).skip(1) =~= cs.skip(1).push(x));
        lemma_join_snoc(cs.skip(1), x);
        if cs.len() == 1 {
            assert(swrite_children(cs.push(x)) =~= swrite_children(cs) + seq![32u8] + swrite(x));
        } else {
            assert(swrite_children(cs.push(x)) =~= swrite_children(cs) + seq![32u8] + swrite(x));
        }
    }
}

pub fn copy_bytes(v: &Vec<u8>) -> (r: Vec<u8>)
    ensures
        r@ == v@,
{
    slice_to_vec(v.as_slice())
}

/// The UTF-8 encoding of one character.
pub fn utf8_encode(c: char) -> (r: Vec<u8>)
    ensures
        r@ == utf8_of(c as int),
{
    let u = c as u32;
    let mut v: Vec<u8> = Vec::new();
    if u < 0x80 {
        v.push(u as u8);
    } else if u < 0x800 {
        assert(u / 0x40 < 0x20);
        v.push((0xC0 + u / 0x40) as u8);
        v.push((0x80 + u % 0x40) as u8);
    } else if u < 0x10000 {
        assert(u / 0x1000 < 0x10);
        v.push((0xE0 + u / 0x1000) as u8);
        v.push((0x80 + (u / 0x40) % 0x40) as u8);
        v.push((0x80 + u % 0x40) as u8);
    } else {
        assert(u / 0x40000 < 0x10);
        v.push((0xF0 + u / 0x40000) as u8);
        v.push((0x80 + (u / 0x1000) % 0x40) as u8);
        v.push((0x80 + (u / 0x40) % 0x40) as u8);
        v.push((0x80 + u % 0x40) as u8);
    }
    proof {
        assert(v@ =~= utf8_of(c as int));
    }
    v
}

/// Renders one node.
pub fn write_node(n: &Node) -> (r: Vec<u8>)
    ensures
        r@ == swrite(n@),
    decreases n,
{
    match n {
        Node::Nil => {
            let mut v: Vec<u8> = Vec::new();
            v.push(110);
            v.push(105);
            v.push(108);
            proof {
                assert(v@ =~= nil_text());
            }
            v
        },
        Node::Bool(t) => copy_bytes(t),
        Node::Int(d, p) => {
            let mut v = copy_bytes(d);
            if *p {
                v.push(78);
            }
            v
        },
        Node::Float(i, f, e, p) => {
            let mut v = copy_bytes(i);
            if f.len() > 0 {
                v.push(46);
                let mut fv = copy_bytes(f);
                v.append(&mut fv);
            }
            if e.len() > 0 {
                v.push(69);
                let mut ev = copy_bytes(e);
                v.append(&mut ev);
            }
            if *p {
                v.push(77);
            }
            proof {
                assert(v@ =~= swrite(n@));
            }
            v
        },
        Node::Char(c) => {
            let mut v: Vec<u8> = Vec::new();
            v.push(92);
            let mut u = utf8_encode(*c);
            v.append(&mut u);
            proof {
                assert(v@ =~= swrite(n@));
            }
            v
        },
        Node::String(s) => {
            let mut v: Vec<u8> = Vec::new();
            v.push(34);
            let mut sv = copy_bytes(s);
            v.append(&mut sv);
            v.push(34);
            proof {
                assert(v@ =~= swrite(n@));
            }
            v
        },
        Node::Keyword(ns, nm) => {
            let mut v: Vec<u8> = Vec::new();
            v.push(58);
            let mut body = write_sym(ns, nm);
            v.append(&mut body);
            proof {
                assert(v@ =~= swrite(n@));
            }
            v
        },
        Node::Symbol(ns, nm) => write_sym(ns, nm),
        Node::List(cs) => write_coll(40, cs, 41),
        Node::Vector(cs) => write_coll(91, cs, 93),
        Node::MapLit(cs) => write_coll(123, cs, 125),
        Node::SetLit(cs) => {
            let mut v: Vec<u8> = Vec::new();
            v.push(35);
            let mut body = write_coll(123, cs, 125);
            v.append(&mut body);
            proof {
                assert(v@ =~= swrite(n@));
            }
            v
        },
        Node::Tagged(t, inner) => {
            let mut v: Vec<u8> = Vec::new();
            v.push(35);
            let mut tv = copy_bytes(t);
            v.append(&mut tv);
            v.push(32);
            let mut iv = write_node(inner);
            v.append(&mut iv);
            proof {
                assert(v@ =~= swrite(n@));
            }
            v
        },
        Node::Discard(inner) => {
            let mut v: Vec<u8> = Vec::new();
            v.push(35);
            v.push(95);
            v.push(32);
            let mut iv = write_node(inner);
            v.append(&mut iv);
            proof {
                assert(v@ =~= swrite(n@));
            }
            v
        },
    }
}

/// The symbol body text, `namespace/name` or the bare name.
pub fn write_sym(ns: &Option<Vec<u8>>, nm: &Vec<u8>) -> (r: Vec<u8>)
    ensures
        r@ == sym_text(crate::types::opt_bytes_view(*ns), nm@),
{
    match ns {
        Option::Some(x) => {
            let mut v = copy_bytes(x);
            v.push(47);
            let mut nv = copy_bytes(nm);
            v.append(&mut nv);
            proof {
                assert(v@ =~= x@ + seq![47u8] + nm@);
            }
            v
        },
        Option::None => copy_bytes(nm),
    }
}

/// A delimited collection: open byte, children joined by single spaces,
/// close byte.
pub fn write_coll(open: u8, cs: &Vec<Node>, close: u8) -> (r: Vec<u8>)
    ensures
        r@ == seq![open] + swrite_children(nodes_view(cs@)) + seq![close],
    decreases cs,
{
    let mut v: Vec<u8> = Vec::new();
    v.push(open);
    let n = cs.len();
    let mut k: usize = 0;
    proof {
        lemma_nodes_view_index(cs@);
    }
    while k < n
        invariant
            0 <= k <= n == cs@.len(),
            nodes_view(cs@).len() == n,
            v@ == seq![open] + swrite_children(nodes_view(cs@).take(k as int)),
        decreases n - k,
    {
        if k > 0 {
            v.push(32);
        }
        let mut cv = write_node(&cs[k]);
        v.append(&mut cv);
        proof {
            lemma_nodes_view_index(cs@);
            assert(nodes_view(cs@).take(k as int).push(nodes_view(cs@)[k as int]) =~= nodes_view(
                cs@,
            ).take(k as int + 1));
            lemma_join_snoc(nodes_view(cs@).take(k as int), nodes_view(cs@)[k as int]);
            assert(v@ =~= seq![open] + swrite_children(nodes_view(cs@).take(k as int + 1)));
        }
        k += 1;
    }
    v.push(close);
    proof {
        assert(nodes_view(cs@).take(n as int) =~= nodes_view(cs@));
        assert(v@ =~= seq![open] + swrite_children(nodes_view(cs@)) + seq![close]);
    }
    v
}

/// Serializes one node tree to canonical notation text, as raw bytes.
/// Total: every constructible node renders.
pub fn edn_write(node: Node) -> (r: Vec<u8>)
    ensures
        r@ == swrite(node@),
{
    write_node(&node)
}

} // verus!
