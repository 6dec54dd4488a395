//! The round-trip laws: reading back a well-formed tree's canonical text
//! reproduces the tree, and re-serialization is therefore idempotent.
//!
//! `wf_node` describes exactly the trees the reader can produce: booleans
//! and characters are never produced (the symbol grammar accepts `true` and
//! `false` first, and no character grammar exists), a collection never holds
//! a discard form (dropped at assembly) nor a direct child of its own
//! bracket family (opening and closing units of one family are
//! indistinguishable, so such a child would read as the close).

use vstd::prelude::*;
use crate::types::GNode;
use crate::atoms::{
    all_digits, atom_node_spec, false_text, find_byte, is_digit_spec, is_sym_char_spec,
    lemma_find_byte_is, lemma_find_byte_none, nil_text, parse_float_spec,
    parse_int_spec, parse_keyword_spec, parse_symbol_spec, parse_uint_spec, sym_ok, true_text,
    valid_bool_spec,
};
use crate::lexer::{
    early_flush, flush_tok, init_lex_state, is_paren_spec, is_ws_spec, lex_emit, lex_spec,
    lex_state, lex_step, lemma_lex_one, lemma_lex_split, paren_kind, LexMode, LexState, Lexeme,
    TokenV,
};
use crate::writer::{swrite, swrite_children, sym_text};
use crate::reader::{
    discard_text, hash_text, is_coll_kind, mk_coll, parse_items, parse_next, read_spec, RErr,
};

verus! {

/// An optionally signed, non-empty digit span: what an integer literal's
/// stored text looks like.
pub open spec fn int_text_ok(d: Seq<u8>) -> bool {
    d.len() > 0 && (forall|i: int| 1 <= i < d.len() ==> is_digit_spec(d[i])) && (is_digit_spec(
        d[0],
    ) || ((d[0] == 45 || d[0] == 43) && d.len() >= 2))
}

/// What a float node's stored parts look like: optional signed integral,
/// non-empty digit fraction, optional signed exponent.
pub open spec fn float_parts_ok(i: Seq<u8>, f: Seq<u8>, e: Seq<u8>) -> bool {
    (i.len() == 0 || int_text_ok(i)) && f.len() > 0 && all_digits(f) && (e.len() == 0
        || int_text_ok(e))
}

/// A byte that continues an atom: not a delimiter, separator, quote,
/// semicolon or backslash.
pub open spec fn atom_byte(c: u8) -> bool {
    !is_paren_spec(c) && !is_ws_spec(c) && c != 34 && c != 59 && c != 92
}

/// An atom whose bytes the lexer keeps together as one unit.
pub open spec fn intact_atom(a: Seq<u8>) -> bool {
    a.len() > 0 && (forall|i: int| 0 <= i < a.len() ==> atom_byte(a[i])) && (a.len() <= 2 || !(
    a[0] == 35 && a[1] == 95))
}

/// Scans string content with the escape toggle: `None` when an unescaped
/// quote occurs (it would end the string early), else the final escape
/// state.
pub open spec fn str_scan(c: Seq<u8>, esc: bool) -> Option<bool>
    decreases c,
{
    if c.len() == 0 {
        Option::Some(esc)
    } else if esc {
        str_scan(c.skip(1), false)
    } else if c[0] == 92 {
        str_scan(c.skip(1), true)
    } else if c[0] == 34 {
        Option::None
    } else {
        str_scan(c.skip(1), false)
    }
}

/// A tag's text: non-empty atom bytes, not beginning with an underscore
/// (that would make the atom split as the discard marker).
pub open spec fn tag_ok(t: Seq<u8>) -> bool {
    t.len() > 0 && (forall|i: int| 0 <= i < t.len() ==> atom_byte(t[i])) && t[0] != 95
}

/// The trees the reader can produce; the round-trip laws hold on these.
pub open spec fn wf_node(n: GNode) -> bool
    decreases n,
{
    match n {
        GNode::Nil => true,
        GNode::Bool(_) => false,
        GNode::Char(_) => false,
        GNode::Int(d, _) => int_text_ok(d),
        GNode::Float(i, f, e, _) => float_parts_ok(i, f, e),
        GNode::Symbol(ns, nm) => parse_symbol_spec(sym_text(ns, nm)) == Option::Some((ns, nm))
            && sym_text(ns, nm) != nil_text(),
        GNode::Keyword(ns, nm) => parse_symbol_spec(sym_text(ns, nm)) == Option::Some((ns, nm)),
        GNode::String(s) => str_scan(s, false) == Option::Some(false),
        GNode::List(cs) => wf_children(cs) && (forall|i: int|
            0 <= i < cs.len() ==> !(cs[i] is List)),
        GNode::Vector(cs) => wf_children(cs) && (forall|i: int|
            0 <= i < cs.len() ==> !(cs[i] is Vector)),
        GNode::MapLit(cs) => wf_children(cs) && (forall|i: int|
            0 <= i < cs.len() ==> !(cs[i] is MapLit)),
        GNode::SetLit(cs) => wf_children(cs) && (forall|i: int|
            0 <= i < cs.len() ==> !(cs[i] is MapLit)),
        GNode::Tagged(t, inner) => tag_ok(t) && wf_node(*inner),
        GNode::Discard(inner) => wf_node(*inner),
    }
}

/// Each child is well formed and none is a discard form (those are dropped
/// when a collection assembles, so they never appear as children).
pub open spec fn wf_children(cs: Seq<GNode>) -> bool
    decreases cs,
{
    cs.len() == 0 || (wf_node(cs[0]) && !(cs[0] is Discard) && wf_children(cs.skip(1)))
}

pub proof fn lemma_wf_children_index(cs: Seq<GNode>)
    requires
        wf_children(cs),
    ensures
        forall|i: int| 0 <= i < cs.len() ==> wf_node(cs[i]) && !(cs[i] is Discard),
    decreases cs,
{
    if cs.len() > 0 {
        lemma_wf_children_index(cs.skip(1));
        assert forall|i: int| 0 <= i < cs.len() implies wf_node(cs[i]) && !(cs[i] is Discard) by {
            if i > 0 {
                assert(cs.skip(1)[i - 1] == cs[i]);
            }
        }
    }
}

pub open spec fn atomv(t: Seq<u8>) -> TokenV {
    TokenV { kind: Lexeme::Atom, text: t }
}

pub open spec fn parenv(k: Lexeme) -> TokenV {
    TokenV { kind: k, text: seq![] }
}

/// The lexical units a node's canonical text tokenizes to.
pub open spec fn toks_of(n: GNode) -> Seq<TokenV>
    decreases n,
{
    match n {
        GNode::String(s) => seq![TokenV { kind: Lexeme::String, text: s }],
        GNode::List(cs) => seq![parenv(Lexeme::ListParen)] + toks_children(cs) + seq![
            parenv(Lexeme::ListParen),
        ],
        GNode::Vector(cs) => seq![parenv(Lexeme::VecParen)] + toks_children(cs) + seq![
            parenv(Lexeme::VecParen),
        ],
        GNode::MapLit(cs) => seq![parenv(Lexeme::MapParen)] + toks_children(cs) + seq![
            parenv(Lexeme::MapParen),
        ],
        GNode::SetLit(cs) => seq![atomv(hash_text()), parenv(Lexeme::MapParen)] + toks_children(cs)
            + seq![parenv(Lexeme::MapParen)],
        GNode::Tagged(t, inner) => seq![atomv(seq![35u8] + t)] + toks_of(*inner),
        GNode::Discard(inner) => seq![atomv(discard_text())] + toks_of(*inner),
        _ => seq![atomv(swrite(n))],
    }
}

pub open spec fn toks_children(cs: Seq<GNode>) -> Seq<TokenV>
    decreases cs,
{
    if cs.len() == 0 {
        seq![]
    } else {
        toks_of(cs[0]) + toks_children(cs.skip(1))
    }
}

/// The span still pending (unflushed) after a node's text is scanned.
pub open spec fn pend_of(n: GNode) -> Seq<u8>
    decreases n,
{
    match n {
        GNode::String(_) => seq![],
        GNode::List(_) => seq![],
        GNode::Vector(_) => seq![],
        GNode::MapLit(_) => seq![],
        GNode::SetLit(_) => seq![],
        GNode::Tagged(_, inner) => pend_of(*inner),
        GNode::Discard(inner) => pend_of(*inner),
        _ => swrite(n),
    }
}

pub open spec fn children_pend(cs: Seq<GNode>) -> Seq<u8> {
    if cs.len() == 0 {
        seq![]
    } else {
        pend_of(cs.last())
    }
}

/// Scanning atom bytes only grows the pending span, emitting nothing.
pub proof fn lemma_lex_atom_run(a: Seq<u8>, p: Seq<u8>)
    requires
        forall|i: int| 0 <= i < a.len() ==> atom_byte(a[i]),
        forall|k: int| 0 <= k < a.len() ==> !early_flush(p + a.take(k)),
    ensures
        lex_state(a, LexState { pend: p, esc: false, mode: LexMode::Norm }) == (LexState {
            pend: p + a,
            esc: false,
            mode: LexMode::Norm,
        }),
        lex_emit(a, LexState { pend: p, esc: false, mode: LexMode::Norm }) == Seq::<
            TokenV,
        >::empty(),
    decreases a,
{
    let st = LexState { pend: p, esc: false, mode: LexMode::Norm };
    if a.len() == 0 {
        assert(p + a =~= p);
        assert(lex_state(a, st) == st);
        assert(lex_emit(a, st) =~= Seq::<TokenV>::empty());
    } else {
        let c = a[0];
        assert(atom_byte(c));
        assert(p + a.take(0) =~= p);
        assert(!early_flush(p));
        let st1 = LexState { pend: p.push(c), esc: false, mode: LexMode::Norm };
        assert(lex_step(c, st).1 == st1);
        assert(lex_step(c, st).0 == Seq::<TokenV>::empty());
        assert forall|k: int| 0 <= k < a.skip(1).len() implies !early_flush(
            p.push(c) + a.skip(1).take(k),
        ) by {
            assert(p.push(c) + a.skip(1).take(k) =~= p + a.take(k + 1));
        }
        lemma_lex_atom_run(a.skip(1), p.push(c));
        assert(p.push(c) + a.skip(1) =~= p + a);
        assert(lex_emit(a, st) =~= Seq::<TokenV>::empty());
    }
}

/// An intact atom scanned from a clean state ends wholly pending.
pub proof fn lemma_lex_atom(a: Seq<u8>)
    requires
        intact_atom(a),
    ensures
        lex_state(a, init_lex_state()) == (LexState {
            pend: a,
            esc: false,
            mode: LexMode::Norm,
        }),
        lex_emit(a, init_lex_state()) == Seq::<TokenV>::empty(),
{
    assert forall|k: int| 0 <= k < a.len() implies !early_flush(
        Seq::<u8>::empty() + a.take(k),
    ) by {
        assert(Seq::<u8>::empty() + a.take(k) =~= a.take(k));
        if k == 2 && a.len() > 2 {
            assert(a.take(2)[0] == a[0] && a.take(2)[1] == a[1]);
            if a.take(2) == seq![35u8, 95u8] {
                assert(a[0] == 35 && a[1] == 95);
            }
        }
    }
    lemma_lex_atom_run(a, Seq::<u8>::empty());
    assert(Seq::<u8>::empty() + a =~= a);
}

/// Scanning safe string content stays in string mode, accumulating it.
pub proof fn lemma_lex_str_run(c: Seq<u8>, p: Seq<u8>, e0: bool)
    requires
        str_scan(c, e0) is Some,
    ensures
        lex_state(c, LexState { pend: p, esc: e0, mode: LexMode::InString }) == (LexState {
            pend: p + c,
            esc: str_scan(c, e0)->Some_0,
            mode: LexMode::InString,
        }),
        lex_emit(c, LexState { pend: p, esc: e0, mode: LexMode::InString }) == Seq::<
            TokenV,
        >::empty(),
    decreases c,
{
    let st = LexState { pend: p, esc: e0, mode: LexMode::InString };
    if c.len() == 0 {
        assert(p + c =~= p);
        assert(lex_emit(c, st) =~= Seq::<TokenV>::empty());
    } else {
        let b = c[0];
        let e1 = !e0 && b == 92;
        let st1 = LexState { pend: p.push(b), esc: e1, mode: LexMode::InString };
        assert(lex_step(b, st).1 == st1);
        assert(lex_step(b, st).0 == Seq::<TokenV>::empty());
        lemma_lex_str_run(c.skip(1), p.push(b), e1);
        assert(p.push(b) + c.skip(1) =~= p + c);
        assert(lex_emit(c, st) =~= Seq::<TokenV>::empty());
    }
}

pub proof fn lemma_sym_chars_are_atom_bytes(s: Seq<u8>)
    requires
        forall|i: int| 0 <= i < s.len() ==> is_sym_char_spec(s[i]),
    ensures
        forall|i: int| 0 <= i < s.len() ==> atom_byte(s[i]),
{
    assert forall|i: int| 0 <= i < s.len() implies atom_byte(s[i]) by {
        assert(is_sym_char_spec(s[i]));
    }
}

/// Scanning a well-formed node's canonical text from a clean state: the
/// units emitted, plus the pending span, are exactly its unit stream, and
/// the scan ends in normal mode with no escape pending.
pub proof fn lemma_lex_node(n: GNode)
    requires
        wf_node(n),
    ensures
        lex_state(swrite(n), init_lex_state()) == (LexState {
            pend: pend_of(n),
            esc: false,
            mode: LexMode::Norm,
        }),
        lex_emit(swrite(n), init_lex_state()) + flush_tok(pend_of(n)) == toks_of(n),
    decreases n, 3int,
{
    let w = swrite(n);
    let init = init_lex_state();
    match n {
        GNode::Nil => {
            lemma_lex_atom(w);
            assert(lex_emit(w, init) + flush_tok(pend_of(n)) =~= toks_of(n));
        },
        GNode::Bool(_) => {
        },
        GNode::Char(_) => {
        },
        GNode::Int(d, p) => {
            assert forall|i: int| 0 <= i < w.len() implies atom_byte(w[i]) by {
                if i < d.len() {
                    assert(w[i] == d[i]);
                }
            }
            lemma_lex_atom(w);
            assert(lex_emit(w, init) + flush_tok(pend_of(n)) =~= toks_of(n));
        },
        GNode::Float(fi, ff, fe, fp) => {
            assert(intact_atom(w)) by {
                lemma_float_text_bytes(fi, ff, fe, fp);
            }
            lemma_lex_atom(w);
            assert(lex_emit(w, init) + flush_tok(pend_of(n)) =~= toks_of(n));
        },
        GNode::Symbol(ns, nm) => {
            assert(sym_ok(w));
            lemma_sym_chars_are_atom_bytes(w);
            lemma_lex_atom(w);
            assert(lex_emit(w, init) + flush_tok(pend_of(n)) =~= toks_of(n));
        },
        GNode::Keyword(ns, nm) => {
            let body = sym_text(ns, nm);
            assert(sym_ok(body));
            assert forall|i: int| 0 <= i < w.len() implies atom_byte(w[i]) by {
                if i == 0 {
                    assert(w[i] == 58);
                } else {
                    assert(w[i] == body[i - 1]);
                    assert(is_sym_char_spec(body[i - 1]));
                }
            }
            lemma_lex_atom(w);
            assert(lex_emit(w, init) + flush_tok(pend_of(n)) =~= toks_of(n));
        },
        GNode::String(s) => {
            let open = seq![34u8];
            let tail = s + seq![34u8];
            assert(w =~= open + tail);
            lemma_lex_split(open, tail, init);
            lemma_lex_one(34, init);
            let st1 = LexState { pend: seq![], esc: false, mode: LexMode::InString };
            assert(lex_state(open, init) == st1);
            lemma_lex_split(s, seq![34u8], st1);
            lemma_lex_str_run(s, seq![], false);
            let st2 = LexState { pend: seq![] + s, esc: false, mode: LexMode::InString };
            assert(seq![] + s =~= s);
            lemma_lex_one(34, st2);
            assert(lex_step(34, st2).0 == seq![TokenV { kind: Lexeme::String, text: s }]);
            assert(lex_state(w, init) == (LexState {
                pend: seq![],
                esc: false,
                mode: LexMode::Norm,
            }));
            assert(lex_emit(w, init) + flush_tok(pend_of(n)) =~= toks_of(n));
        },
        GNode::List(cs) => {
            lemma_lex_coll(40, cs, 41);
            assert(lex_emit(w, init) + flush_tok(pend_of(n)) =~= toks_of(n));
        },
        GNode::Vector(cs) => {
            lemma_lex_coll(91, cs, 93);
            assert(lex_emit(w, init) + flush_tok(pend_of(n)) =~= toks_of(n));
        },
        GNode::MapLit(cs) => {
            lemma_lex_coll(123, cs, 125);
            assert(lex_emit(w, init) + flush_tok(pend_of(n)) =~= toks_of(n));
        },
        GNode::SetLit(cs) => {
            let tail = seq![123u8] + swrite_children(cs) + seq![125u8];
            assert(w =~= seq![35u8] + tail);
            lemma_lex_split(seq![35u8], tail, init);
            lemma_lex_one(35, init);
            let st1 = LexState { pend: seq![35u8], esc: false, mode: LexMode::Norm };
            assert(lex_step(35, init).1.pend =~= seq![35u8]);
            assert(lex_state(seq![35u8], init) == st1);
            lemma_lex_coll_from(123, cs, 125, seq![35u8]);
            assert(tail =~= seq![123u8] + swrite_children(cs) + seq![125u8]);
            assert(lex_state(w, init) == (LexState {
                pend: seq![],
                esc: false,
                mode: LexMode::Norm,
            }));
            assert(flush_tok(seq![35u8]) =~= seq![atomv(hash_text())]);
            assert(lex_emit(w, init) + flush_tok(pend_of(n)) =~= toks_of(n));
        },
        GNode::Tagged(t, inner) => {
            let head = seq![35u8] + t;
            let tail = seq![32u8] + swrite(*inner);
            assert(w =~= head + tail);
            assert(intact_atom(head)) by {
                assert forall|i: int| 0 <= i < head.len() implies atom_byte(head[i]) by {
                    if i > 0 {
                        assert(head[i] == t[i - 1]);
                    }
                }
                if head.len() > 2 {
                    assert(head[1] == t[0]);
                }
            }
            lemma_lex_atom(head);
            lemma_lex_split(head, tail, init);
            let st1 = LexState { pend: head, esc: false, mode: LexMode::Norm };
            lemma_lex_split(seq![32u8], swrite(*inner), st1);
            lemma_lex_one(32, st1);
            assert(lex_step(32, st1).0 == flush_tok(head));
            assert(lex_step(32, st1).1 == init);
            lemma_lex_node(*inner);
            assert(lex_state(w, init) == (LexState {
                pend: pend_of(n),
                esc: false,
                mode: LexMode::Norm,
            }));
            assert(flush_tok(head) =~= seq![atomv(seq![35u8] + t)]);
            assert(lex_emit(w, init) + flush_tok(pend_of(n)) =~= toks_of(n));
        },
        GNode::Discard(inner) => {
            let head = seq![35u8, 95u8];
            let tail = seq![32u8] + swrite(*inner);
            assert(w =~= head + tail);
            assert(intact_atom(head));
            lemma_lex_atom(head);
            lemma_lex_split(head, tail, init);
            let st1 = LexState { pend: head, esc: false, mode: LexMode::Norm };
            lemma_lex_split(seq![32u8], swrite(*inner), st1);
            lemma_lex_one(32, st1);
            assert(lex_step(32, st1).0 == flush_tok(head));
            assert(lex_step(32, st1).1 == init);
            lemma_lex_node(*inner);
            assert(lex_state(w, init) == (LexState {
                pend: pend_of(n),
                esc: false,
                mode: LexMode::Norm,
            }));
            assert(flush_tok(head) =~= seq![atomv(discard_text())]);
            assert(lex_emit(w, init) + flush_tok(pend_of(n)) =~= toks_of(n));
        },
    }
}

/// The float text's bytes: every piece is made of atom bytes, and the
/// first byte is a digit, a sign or the dot.
pub proof fn lemma_float_text_bytes(fi: Seq<u8>, ff: Seq<u8>, fe: Seq<u8>, fp: bool)
    requires
        float_parts_ok(fi, ff, fe),
    ensures
        intact_atom(swrite(GNode::Float(fi, ff, fe, fp))),
{
    let w = swrite(GNode::Float(fi, ff, fe, fp));
    let fpart = seq![46u8] + ff;
    let epart = if fe.len() > 0 {
        seq![69u8] + fe
    } else {
        seq![]
    };
    let base = fi + fpart + epart;
    assert forall|i: int| 0 <= i < w.len() implies atom_byte(w[i]) by {
        if i < base.len() {
            assert(w[i] == base[i]);
            if i < fi.len() {
                assert(base[i] == fi[i]);
            } else if i < fi.len() + fpart.len() {
                assert(base[i] == fpart[i - fi.len()]);
                if i - fi.len() > 0 {
                    assert(fpart[i - fi.len()] == ff[i - fi.len() - 1]);
                }
            } else {
                assert(base[i] == epart[i - fi.len() - fpart.len()]);
                if i - fi.len() - fpart.len() > 0 {
                    assert(epart[i - fi.len() - fpart.len()] == fe[i - fi.len() - fpart.len() - 1]);
                }
            }
        } else {
            assert(w[i] == 77);
        }
    }
    assert(w.len() > 0);
    if w.len() > 2 {
        if fi.len() > 0 {
            assert(w[0] == fi[0]);
        } else {
            assert(w[0] == 46);
        }
    }
}

/// A delimited collection's text scans to its unit stream: open unit,
/// children's units, close unit, leaving nothing pending.
pub proof fn lemma_lex_coll(open: u8, cs: Seq<GNode>, close: u8)
    requires
        wf_children(cs),
        is_paren_spec(open),
        is_paren_spec(close),
        paren_kind(open) == paren_kind(close),
    ensures
        lex_state(seq![open] + swrite_children(cs) + seq![close], init_lex_state()) == (LexState {
            pend: seq![],
            esc: false,
            mode: LexMode::Norm,
        }),
        lex_emit(seq![open] + swrite_children(cs) + seq![close], init_lex_state()) == seq![
            parenv(paren_kind(open)),
        ] + toks_children(cs) + seq![parenv(paren_kind(close))],
    decreases cs, 2int,
{
    lemma_lex_coll_from(open, cs, close, seq![]);
    assert(flush_tok(seq![]) =~= Seq::<TokenV>::empty());
    assert(Seq::<TokenV>::empty() + seq![parenv(paren_kind(open))] =~= seq![
        parenv(paren_kind(open)),
    ]);
}

/// As `lemma_lex_coll`, but with a span already pending before the open
/// delimiter (the `#` of a set literal): the open flushes it first.
pub proof fn lemma_lex_coll_from(open: u8, cs: Seq<GNode>, close: u8, p: Seq<u8>)
    requires
        wf_children(cs),
        is_paren_spec(open),
        is_paren_spec(close),
        paren_kind(open) == paren_kind(close),
    ensures
        lex_state(
            seq![open] + swrite_children(cs) + seq![close],
            LexState { pend: p, esc: false, mode: LexMode::Norm },
        ) == (LexState { pend: seq![], esc: false, mode: LexMode::Norm }),
        lex_emit(
            seq![open] + swrite_children(cs) + seq![close],
            LexState { pend: p, esc: false, mode: LexMode::Norm },
        ) == flush_tok(p) + seq![parenv(paren_kind(open))] + toks_children(cs) + seq![
            parenv(paren_kind(close)),
        ],
    decreases cs, 1int,
{
    let st0 = LexState { pend: p, esc: false, mode: LexMode::Norm };
    let init = init_lex_state();
    let w = seq![open] + swrite_children(cs) + seq![close];
    let tail = swrite_children(cs) + seq![close];
    assert(w =~= seq![open] + tail);
    lemma_lex_split(seq![open], tail, st0);
    lemma_lex_one(open, st0);
    assert(lex_step(open, st0).0 == flush_tok(p) + seq![parenv(paren_kind(open))]);
    assert(lex_step(open, st0).1 == init);
    lemma_lex_split(swrite_children(cs), seq![close], init);
    lemma_lex_children(cs);
    let stc = LexState { pend: children_pend(cs), esc: false, mode: LexMode::Norm };
    lemma_lex_one(close, stc);
    assert(lex_step(close, stc).0 == flush_tok(children_pend(cs)) + seq![
        parenv(paren_kind(close)),
    ]);
    assert(lex_step(close, stc).1 == init);
    assert(lex_emit(w, st0) =~= flush_tok(p) + seq![parenv(paren_kind(open))] + lex_emit(
        swrite_children(cs),
        init,
    ) + (flush_tok(children_pend(cs)) + seq![parenv(paren_kind(close))]));
    assert(lex_emit(swrite_children(cs), init) + flush_tok(children_pend(cs)) == toks_children(
        cs,
    ));
    assert(lex_emit(w, st0) =~= flush_tok(p) + seq![parenv(paren_kind(open))] + toks_children(cs)
        + seq![parenv(paren_kind(close))]);
}

/// Children joined by single spaces scan to the concatenation of their
/// unit streams, with the last child's pending span still open.
pub proof fn lemma_lex_children(cs: Seq<GNode>)
    requires
        wf_children(cs),
    ensures
        lex_state(swrite_children(cs), init_lex_state()) == (LexState {
            pend: children_pend(cs),
            esc: false,
            mode: LexMode::Norm,
        }),
        lex_emit(swrite_children(cs), init_lex_state()) + flush_tok(children_pend(cs))
            == toks_children(cs),
    decreases cs, 0int,
{
    let init = init_lex_state();
    if cs.len() == 0 {
        assert(lex_state(swrite_children(cs), init) == init);
        assert(init == (LexState { pend: children_pend(cs), esc: false, mode: LexMode::Norm }));
        assert(lex_emit(swrite_children(cs), init) + flush_tok(children_pend(cs)) =~= toks_children(
            cs,
        ));
    } else if cs.len() == 1 {
        lemma_lex_node(cs[0]);
        assert(cs.last() == cs[0]);
        assert(toks_children(cs.skip(1)) =~= Seq::<TokenV>::empty());
        assert(toks_of(cs[0]) + toks_children(cs.skip(1)) =~= toks_of(cs[0]));
    } else {
        let w0 = swrite(cs[0]);
        let rest = swrite_children(cs.skip(1));
        let w = swrite_children(cs);
        assert(w == w0 + seq![32u8] + rest);
        assert(w =~= w0 + (seq![32u8] + rest));
        lemma_lex_node(cs[0]);
        let st1 = LexState { pend: pend_of(cs[0]), esc: false, mode: LexMode::Norm };
        lemma_lex_split(w0, seq![32u8] + rest, init);
        lemma_lex_split(seq![32u8], rest, st1);
        lemma_lex_one(32, st1);
        assert(lex_step(32, st1).0 == flush_tok(pend_of(cs[0])));
        assert(lex_step(32, st1).1 == init);
        lemma_lex_children(cs.skip(1));
        assert(cs.skip(1).last() == cs.last());
        assert(children_pend(cs.skip(1)) == children_pend(cs));
        assert(lex_state(w, init) == (LexState {
            pend: children_pend(cs),
            esc: false,
            mode: LexMode::Norm,
        }));
        assert(lex_emit(w, init) =~= lex_emit(w0, init) + flush_tok(pend_of(cs[0])) + lex_emit(
            rest,
            init,
        ));
        assert(lex_emit(w, init) + flush_tok(children_pend(cs)) =~= (lex_emit(w0, init) + flush_tok(
            pend_of(cs[0]),
        )) + (lex_emit(rest, init) + flush_tok(children_pend(cs.skip(1)))));
        assert(lex_emit(w, init) + flush_tok(children_pend(cs)) =~= toks_of(cs[0]) + toks_children(
            cs.skip(1),
        ));
    }
}


/// A node's first lexical unit: one exists, and its kind identifies the
/// variant family.
pub proof fn lemma_toks_first(n: GNode)
    requires
        wf_node(n),
    ensures
        toks_of(n).len() >= 1,
        toks_of(n)[0].kind == (match n {
            GNode::List(_) => Lexeme::ListParen,
            GNode::Vector(_) => Lexeme::VecParen,
            GNode::MapLit(_) => Lexeme::MapParen,
            GNode::String(_) => Lexeme::String,
            _ => Lexeme::Atom,
        }),
{
    match n {
        GNode::List(cs) => {
            assert(toks_of(n)[0] == parenv(Lexeme::ListParen));
        },
        GNode::Vector(cs) => {
            assert(toks_of(n)[0] == parenv(Lexeme::VecParen));
        },
        GNode::MapLit(cs) => {
            assert(toks_of(n)[0] == parenv(Lexeme::MapParen));
        },
        GNode::SetLit(cs) => {
            assert(toks_of(n)[0] == atomv(hash_text()));
        },
        GNode::Tagged(t, inner) => {
            assert(toks_of(n)[0] == atomv(seq![35u8] + t));
        },
        GNode::Discard(inner) => {
            assert(toks_of(n)[0] == atomv(discard_text()));
        },
        _ => {
        },
    }
}

/// An optionally signed digit span with no precision suffix parses as
/// itself.
pub proof fn lemma_parse_int_plain(d: Seq<u8>)
    requires
        int_text_ok(d),
    ensures
        parse_int_spec(d, false) == Option::Some((d, false)),
{
    assert(d.last() != 78);
    if d[0] == 45 || d[0] == 43 {
        assert(d.len() >= 2);
        assert(all_digits(d.skip(1))) by {
            assert(forall|i: int| 0 <= i < d.skip(1).len() ==> d.skip(1)[i] == d[i + 1]);
        }
        assert(d.skip(1).last() == d.last());
        assert(parse_uint_spec(d.skip(1), false) == Option::Some((d.skip(1), false)));
        assert(seq![d[0]] + d.skip(1) =~= d);
    } else {
        assert(all_digits(d));
        assert(parse_uint_spec(d, false) == Option::Some((d, false)));
    }
}

/// An integer literal's canonical text classifies back to the same node.
pub proof fn lemma_atom_int(d: Seq<u8>, p: bool)
    requires
        int_text_ok(d),
    ensures
        atom_node_spec(swrite(GNode::Int(d, p))) == Option::Some(GNode::Int(d, p)),
{
    let t = swrite(GNode::Int(d, p));
    assert(t[0] == d[0]);
    assert(t != nil_text()) by {
        if t == nil_text() {
            assert(t[0] == 110);
        }
    }
    assert(parse_keyword_spec(t) is None);
    assert(parse_symbol_spec(t) is None) by {
        if d[0] == 45 || d[0] == 43 {
            assert(t[1] == d[1]);
            assert(is_digit_spec(t[1]));
        }
        assert(!crate::atoms::sym_head_ok(t));
    }
    assert(!valid_bool_spec(t)) by {
        if t == true_text() {
            assert(t[0] == 116);
        }
        if t == false_text() {
            assert(t[0] == 102);
        }
    }
    assert(parse_int_spec(t, true) == Option::Some((d, p))) by {
        if d[0] == 45 || d[0] == 43 {
            if p {
                assert(t.skip(1) =~= d.skip(1).push(78));
                assert(t.skip(1).drop_last() =~= d.skip(1));
                assert(t.skip(1).last() == 78);
                assert(all_digits(d.skip(1))) by {
                    assert(forall|i: int|
                        0 <= i < d.skip(1).len() ==> d.skip(1)[i] == d[i + 1]);
                }
                assert(d.skip(1).last() == d.last());
                assert(d.last() != 78);
                assert(parse_uint_spec(d.skip(1), false) == Option::Some((d.skip(1), false)));
                assert(parse_uint_spec(t.skip(1), true) == Option::Some((d.skip(1), true)));
                assert(seq![t[0]] + d.skip(1) =~= d);
            } else {
                assert(t == d);
                assert(t.skip(1) =~= d.skip(1));
                assert(all_digits(d.skip(1))) by {
                    assert(forall|i: int|
                        0 <= i < d.skip(1).len() ==> d.skip(1)[i] == d[i + 1]);
                }
                assert(d.skip(1).last() == d.last());
                assert(d.last() != 78);
                assert(parse_uint_spec(d.skip(1), false) == Option::Some((d.skip(1), false)));
                assert(seq![t[0]] + d.skip(1) =~= d);
            }
        } else {
            assert(is_digit_spec(d[0]));
            assert(all_digits(d));
            assert(d.last() != 78);
            if p {
                assert(t.last() == 78);
                assert(t.drop_last() =~= d);
                assert(parse_uint_spec(d, false) == Option::Some((d, false)));
            } else {
                assert(parse_uint_spec(t, false) == Option::Some((d, false)));
            }
        }
    }
}

/// A float literal's canonical text classifies back to the same node.
#[verifier::rlimit(60)]
pub proof fn lemma_atom_float(fi: Seq<u8>, ff: Seq<u8>, fe: Seq<u8>, fp: bool)
    requires
        float_parts_ok(fi, ff, fe),
    ensures
        atom_node_spec(swrite(GNode::Float(fi, ff, fe, fp))) == Option::Some(
            GNode::Float(fi, ff, fe, fp),
        ),
{
    let t = swrite(GNode::Float(fi, ff, fe, fp));
    let fpart = seq![46u8] + ff;
    let epart = if fe.len() > 0 {
        seq![69u8] + fe
    } else {
        seq![]
    };
    let base = fi + fpart + epart;
    assert(t == if fp {
        base.push(77)
    } else {
        base
    });
    let dotp = fi.len() as int;
    assert(base[dotp] == 46);
    assert(t[dotp] == 46);
    assert(t.len() >= 2);
    if fi.len() > 0 {
        assert(t[0] == fi[0]);
        if fi[0] == 45 || fi[0] == 43 {
            assert(t[1] == fi[1] || fi.len() == 1);
            assert(fi.len() >= 2);
            assert(is_digit_spec(t[1]));
        }
    } else {
        assert(t[0] == 46);
        assert(t[1] == ff[0]);
        assert(is_digit_spec(t[1]));
    }
    assert(t != nil_text()) by {
        if t == nil_text() {
            assert(t[0] == 110);
        }
    }
    assert(parse_keyword_spec(t) is None);
    assert(parse_symbol_spec(t) is None) by {
        assert(!crate::atoms::sym_head_ok(t));
    }
    assert(!valid_bool_spec(t)) by {
        if t == true_text() {
            assert(t[0] == 116);
        }
        if t == false_text() {
            assert(t[0] == 102);
        }
    }
    // the base's final byte is a digit, so no precision suffix is seen
    assert(base.last() == 46 || is_digit_spec(base.last())) by {
        if fe.len() > 0 {
            assert(base.last() == fe.last());
            assert(fe.len() == 1 ==> is_digit_spec(fe[0]));
        } else {
            assert(base.last() == ff.last());
        }
    }
    assert(parse_int_spec(t, true) is None) by {
        if t[0] == 45 || t[0] == 43 {
            assert(t.skip(1)[dotp - 1] == 46);
            assert(!all_digits(t.skip(1)));
            if t.skip(1).last() == 78 {
            } else {
                assert(parse_uint_spec(t.skip(1), true) is None);
            }
            if t.skip(1).last() == 78 {
                assert(t.skip(1).drop_last()[dotp - 1] == 46) by {
                    assert(t.skip(1).drop_last().len() > dotp - 1);
                    assert(t.skip(1).drop_last()[dotp - 1] == t.skip(1)[dotp - 1]);
                }
                assert(!all_digits(t.skip(1).drop_last()));
                assert(parse_uint_spec(t.skip(1).drop_last(), false) is None);
                assert(parse_uint_spec(t.skip(1), true) is None);
            }
        } else {
            assert(!all_digits(t));
            if t.last() == 78 {
                assert(t.drop_last()[dotp] == 46);
                assert(!all_digits(t.drop_last()));
                assert(parse_uint_spec(t.drop_last(), false) is None);
                assert(parse_uint_spec(t, true) is None);
            } else {
                assert(parse_uint_spec(t, true) is None);
            }
        }
    }
    assert(parse_float_spec(t, true) == Option::Some((fi, ff, fe, fp))) by {
        assert(parse_float_spec(base, false) == Option::Some((fi, ff, fe, false))) by {
            assert(base.last() != 77);
            assert(forall|j: int| 0 <= j < dotp ==> base[j] == fi[j]);
            assert(forall|j: int| 0 <= j < dotp ==> base[j] != 46);
            lemma_find_byte_is(base, 46, dotp);
            let restp = base.subrange(dotp + 1, base.len() as int);
            assert(base.subrange(0, dotp) =~= fi);
            assert(restp =~= ff + epart);
            if fi.len() > 0 {
                lemma_parse_int_plain(fi);
            }
            if fe.len() == 0 {
                assert(restp =~= ff);
                assert(forall|j: int| 0 <= j < restp.len() ==> is_digit_spec(restp[j]));
                assert(forall|j: int| 0 <= j < restp.len() ==> restp[j] != 69);
                lemma_find_byte_none(restp, 69);
                assert(restp.last() != 78);
                assert(parse_uint_spec(restp, false) == Option::Some((restp, false)));
                assert(fe =~= Seq::<u8>::empty());
                assert(seq![] =~= fe);
            } else {
                let fl = ff.len() as int;
                assert(restp[fl] == 69);
                assert(forall|j: int| 0 <= j < fl ==> restp[j] == ff[j]);
                assert(forall|j: int| 0 <= j < fl ==> restp[j] != 69);
                lemma_find_byte_is(restp, 69, fl);
                assert(restp.subrange(0, fl) =~= ff);
                assert(restp.subrange(fl + 1, restp.len() as int) =~= fe);
                assert(ff.last() != 78);
                assert(parse_uint_spec(ff, false) == Option::Some((ff, false)));
                lemma_parse_int_plain(fe);
            }
        }
        if fp {
            assert(t.last() == 77);
            assert(t.drop_last() =~= base);
        } else {
            assert(t == base);
            assert(t.last() != 77);
        }
    }
}

/// A symbol's canonical text classifies back to the same node.
pub proof fn lemma_atom_sym(ns: Option<Seq<u8>>, nm: Seq<u8>)
    requires
        parse_symbol_spec(sym_text(ns, nm)) == Option::Some((ns, nm)),
        sym_text(ns, nm) != nil_text(),
    ensures
        atom_node_spec(sym_text(ns, nm)) == Option::Some(GNode::Symbol(ns, nm)),
{
    let t = sym_text(ns, nm);
    assert(sym_ok(t));
    assert(t[0] != 58);
    assert(parse_keyword_spec(t) is None);
}

/// A keyword's canonical text classifies back to the same node.
pub proof fn lemma_atom_kw(ns: Option<Seq<u8>>, nm: Seq<u8>)
    requires
        parse_symbol_spec(sym_text(ns, nm)) == Option::Some((ns, nm)),
    ensures
        atom_node_spec(seq![58u8] + sym_text(ns, nm)) == Option::Some(GNode::Keyword(ns, nm)),
{
    let t = seq![58u8] + sym_text(ns, nm);
    assert(t[0] == 58);
    assert(t != nil_text()) by {
        if t == nil_text() {
            assert(t[0] == 110);
        }
    }
    assert(t.skip(1) =~= sym_text(ns, nm));
}

/// Parsing a well-formed node's unit stream yields the node back and
/// leaves exactly the trailing units.
pub proof fn lemma_parse_node(n: GNode, rest: Seq<TokenV>)
    requires
        wf_node(n),
    ensures
        parse_next(toks_of(n) + rest) == Result::Ok::<(GNode, Seq<TokenV>), RErr>((n, rest)),
    decreases n, 1int,
{
    let ts = toks_of(n) + rest;
    lemma_toks_first(n);
    assert(ts[0] == toks_of(n)[0]);
    match n {
        GNode::Nil => {
            assert(toks_of(n) =~= seq![atomv(nil_text())]);
            assert(ts.skip(1) =~= rest);
            assert(ts[0].text == nil_text());
            assert(nil_text() != discard_text());
            assert(nil_text()[0] == 110);
            assert(nil_text() != hash_text());
            assert(atom_node_spec(nil_text()) == Option::Some(GNode::Nil));
        },
        GNode::Bool(_) => {
        },
        GNode::Char(_) => {
        },
        GNode::Int(d, p) => {
            let a = swrite(n);
            assert(toks_of(n) =~= seq![atomv(a)]);
            assert(ts.skip(1) =~= rest);
            assert(a[0] == d[0]);
            assert(a[0] != 35 && a[0] != 34);
            assert(a != discard_text() && a != hash_text()) by {
                if a == discard_text() {
                    assert(a[0] == 35);
                }
                if a == hash_text() {
                    assert(a[0] == 35);
                }
            }
            lemma_atom_int(d, p);
        },
        GNode::Float(fi, ff, fe, fp) => {
            let a = swrite(n);
            assert(toks_of(n) =~= seq![atomv(a)]);
            assert(ts.skip(1) =~= rest);
            assert(a[0] == 46 || a[0] == fi[0]);
            assert(a[0] != 35) by {
                if fi.len() > 0 {
                    assert(a[0] == fi[0]);
                }
            }
            assert(a != discard_text() && a != hash_text()) by {
                if a == discard_text() {
                    assert(a[0] == 35);
                }
                if a == hash_text() {
                    assert(a[0] == 35);
                }
            }
            lemma_atom_float(fi, ff, fe, fp);
        },
        GNode::Symbol(ns, nm) => {
            let a = sym_text(ns, nm);
            assert(toks_of(n) =~= seq![atomv(a)]);
            assert(ts.skip(1) =~= rest);
            assert(sym_ok(a));
            assert(a[0] != 35);
            assert(a != discard_text() && a != hash_text()) by {
                if a == discard_text() {
                    assert(a[0] == 35);
                }
                if a == hash_text() {
                    assert(a[0] == 35);
                }
            }
            lemma_atom_sym(ns, nm);
        },
        GNode::Keyword(ns, nm) => {
            let a = seq![58u8] + sym_text(ns, nm);
            assert(swrite(n) =~= a);
            assert(toks_of(n) =~= seq![atomv(swrite(n))]);
            assert(ts.skip(1) =~= rest);
            assert(a[0] == 58);
            assert(a != discard_text() && a != hash_text()) by {
                if a == discard_text() {
                    assert(a[0] == 35);
                }
                if a == hash_text() {
                    assert(a[0] == 35);
                }
            }
            lemma_atom_kw(ns, nm);
        },
        GNode::String(s) => {
            assert(ts.skip(1) =~= rest);
        },
        GNode::List(cs) => {
            lemma_coll_parse(n, Lexeme::ListParen, cs, rest);
        },
        GNode::Vector(cs) => {
            lemma_coll_parse(n, Lexeme::VecParen, cs, rest);
        },
        GNode::MapLit(cs) => {
            lemma_coll_parse(n, Lexeme::MapParen, cs, rest);
        },
        GNode::SetLit(cs) => {
            assert(ts[0].text == hash_text());
            assert(hash_text() != discard_text());
            assert(hash_text().len() == 1);
            let inner_ts = seq![parenv(Lexeme::MapParen)] + toks_children(cs) + seq![
                parenv(Lexeme::MapParen),
            ] + rest;
            assert(ts.skip(1) =~= inner_ts);
            assert(inner_ts[0].kind == Lexeme::MapParen);
            lemma_wf_children_index(cs);
            assert forall|i: int| 0 <= i < cs.len() implies 0 < (
            #[trigger] toks_of(cs[i])).len() && toks_of(cs[i])[0].kind != Lexeme::MapParen by {
                lemma_toks_first(cs[i]);
            }
            lemma_parse_children(Lexeme::MapParen, cs, rest);
            assert(inner_ts.skip(1) =~= toks_children(cs) + seq![parenv(Lexeme::MapParen)] + rest);
            assert(parse_next(inner_ts) == Result::Ok::<(GNode, Seq<TokenV>), RErr>(
                (GNode::MapLit(cs), rest),
            ));
        },
        GNode::Tagged(t, inner) => {
            let a = seq![35u8] + t;
            assert(ts[0] == atomv(a));
            assert(a.len() >= 2);
            assert(a[0] == 35);
            assert(a != discard_text()) by {
                if a == discard_text() {
                    assert(a[1] == 95);
                    assert(a[1] == t[0]);
                }
            }
            assert(ts.skip(1) =~= toks_of(*inner) + rest);
            lemma_parse_node(*inner, rest);
            assert(a.skip(1) =~= t);
        },
        GNode::Discard(inner) => {
            assert(ts[0] == atomv(discard_text()));
            assert(ts.skip(1) =~= toks_of(*inner) + rest);
            lemma_parse_node(*inner, rest);
        },
    }
}

/// The collection case of `lemma_parse_node`: delimiter, children, close.
pub proof fn lemma_coll_parse(n: GNode, k: Lexeme, cs: Seq<GNode>, rest: Seq<TokenV>)
    requires
        wf_node(n),
        n == GNode::List(cs) && k == Lexeme::ListParen || n == GNode::Vector(cs) && k
            == Lexeme::VecParen || n == GNode::MapLit(cs) && k == Lexeme::MapParen,
    ensures
        parse_next(toks_of(n) + rest) == Result::Ok::<(GNode, Seq<TokenV>), RErr>((n, rest)),
    decreases n, 0int,
{
    let ts = toks_of(n) + rest;
    lemma_toks_first(n);
    assert(ts[0] == toks_of(n)[0]);
    assert(ts[0].kind == k);
    assert(is_coll_kind(k));
    lemma_wf_children_index(cs);
    assert forall|i: int| 0 <= i < cs.len() implies 0 < (#[trigger] toks_of(cs[i])).len()
        && toks_of(cs[i])[0].kind != k by {
        lemma_toks_first(cs[i]);
    }
    lemma_parse_children(k, cs, rest);
    assert(ts.skip(1) =~= toks_children(cs) + seq![parenv(k)] + rest);
    assert(mk_coll(k, cs) == n);
}

/// Parsing children units up to the closing unit yields the children in
/// order, none dropped (a well-formed collection has no discard child).
pub proof fn lemma_parse_children(k: Lexeme, cs: Seq<GNode>, rest: Seq<TokenV>)
    requires
        wf_children(cs),
        is_coll_kind(k),
        forall|i: int| 0 <= i < cs.len() ==> 0 < (#[trigger] toks_of(cs[i])).len() && toks_of(
            cs[i],
        )[0].kind != k,
    ensures
        parse_items(k, toks_children(cs) + seq![parenv(k)] + rest) == Result::Ok::<
            (Seq<GNode>, Seq<TokenV>),
            RErr,
        >((cs, rest)),
    decreases cs, 2int,
{
    let ts = toks_children(cs) + seq![parenv(k)] + rest;
    if cs.len() == 0 {
        assert(toks_children(cs) =~= Seq::<TokenV>::empty());
        assert(ts =~= seq![parenv(k)] + rest);
        assert(ts[0].kind == k);
        assert(ts.skip(1) =~= rest);
        assert(cs =~= Seq::<GNode>::empty());
    } else {
        let rest1 = toks_children(cs.skip(1)) + seq![parenv(k)] + rest;
        assert(ts =~= toks_of(cs[0]) + rest1);
        assert(ts[0] == toks_of(cs[0])[0]);
        assert(ts[0].kind != k);
        assert(ts.len() > 0);
        lemma_parse_node(cs[0], rest1);
        assert(rest1.len() < ts.len());
        assert forall|i: int| 0 <= i < cs.skip(1).len() implies 0 < (
        #[trigger] toks_of(cs.skip(1)[i])).len() && toks_of(cs.skip(1)[i])[0].kind != k by {
            assert(cs.skip(1)[i] == cs[i + 1]);
        }
        lemma_parse_children(k, cs.skip(1), rest);
        assert(!(cs[0] is Discard));
        assert(seq![cs[0]] + cs.skip(1) =~= cs);
    }
}

/// Round-trip law: for every tree the reader can produce, reading its
/// canonical text gives the same tree back.
pub proof fn lemma_read_write_round_trip(n: GNode)
    requires
        wf_node(n),
    ensures
        read_spec(swrite(n)) == Result::Ok::<GNode, RErr>(n),
{
    let w = swrite(n);
    lemma_lex_node(n);
    assert(lex_state(w, init_lex_state()).mode == LexMode::Norm);
    assert(lex_spec(w) == Option::Some(toks_of(n)));
    lemma_toks_first(n);
    lemma_parse_node(n, Seq::<TokenV>::empty());
    assert(toks_of(n) + Seq::<TokenV>::empty() =~= toks_of(n));
}

/// Idempotent re-serialization: writing what was read back from written
/// text reproduces the text.
pub proof fn lemma_write_read_write(n: GNode)
    requires
        wf_node(n),
    ensures
        read_spec(swrite(n)) is Ok,
        swrite(read_spec(swrite(n))->Ok_0) == swrite(n),
{
    lemma_read_write_round_trip(n);
}

} // verus!
