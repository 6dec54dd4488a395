//! The lexer: one left-to-right scan over the input bytes, producing a flat
//! stream of typed lexical units (string literals, atoms, and one delimiter
//! unit per bracket family — opening and closing bytes of a family share a
//! unit kind; the reader tells them apart positionally).
//!
//! The scan is modelled by a one-byte step function over an explicit state
//! (pending span, escape flag, mode); the executable lexer is proved to
//! follow that model byte for byte.

use vstd::prelude::*;
use vstd::slice::{slice_subrange, slice_to_vec};

verus! {

/// The kind of a lexical unit. Opening and closing brackets of one family
/// share a kind.
#[derive(Debug, Clone, Copy, PartialEq, Eq, Structural)]
pub enum Lexeme {
    String,
    Atom,
    VecParen,
    MapParen,
    ListParen,
}

/// One lexical unit: its kind and its text. Delimiter units carry empty
/// text; a string unit carries the content between the quotes; an atom unit
/// carries the atom's bytes.
#[derive(Debug, PartialEq, Eq)]
pub struct Token {
    pub kind: Lexeme,
    pub text: Vec<u8>,
}

/// The model of one lexical unit.
#[verifier::ext_equal]
pub struct TokenV {
    pub kind: Lexeme,
    pub text: Seq<u8>,
}

impl View for Token {
    type V = TokenV;

    open spec fn view(&self) -> TokenV {
        TokenV { kind: self.kind, text: self.text@ }
    }
}

pub open spec fn toks_view(ts: Seq<Token>) -> Seq<TokenV> {
    Seq::new(ts.len(), |i: int| ts[i]@)
}

#[derive(Debug, Clone, Copy, PartialEq, Eq, Structural)]
pub enum LexMode {
    Norm,
    InString,
    InComment,
}

/// The scan state: the pending (not yet emitted) span, the escape-pending
/// flag (the previous byte was an unescaped backslash), and the mode.
#[verifier::ext_equal]
pub struct LexState {
    pub pend: Seq<u8>,
    pub esc: bool,
    pub mode: LexMode,
}

pub open spec fn init_lex_state() -> LexState {
    LexState { pend: seq![], esc: false, mode: LexMode::Norm }
}

pub open spec fn is_paren_spec(c: u8) -> bool {
    c == 40 || c == 41 || c == 91 || c == 93 || c == 123 || c == 125
}

pub open spec fn is_ws_spec(c: u8) -> bool {
    c == 9 || c == 10 || c == 13 || c == 32 || c == 44
}

/// The bracket family of a delimiter byte (meaningful only on delimiters).
pub open spec fn paren_kind(c: u8) -> Lexeme {
    if c == 40 || c == 41 {
        Lexeme::ListParen
    } else if c == 123 || c == 125 {
        Lexeme::MapParen
    } else {
        Lexeme::VecParen
    }
}

/// Structural bytes `()[]{}` map to one of three bracket families,
/// regardless of open or close.
pub fn get_paren_lexeme(c: u8) -> (r: Option<Lexeme>)
    ensures
        match r {
            Option::Some(l) => is_paren_spec(c) && l == paren_kind(c),
            Option::None => !is_paren_spec(c),
        },
{
    match c {
        40 | 41 => Option::Some(Lexeme::ListParen),
        123 | 125 => Option::Some(Lexeme::MapParen),
        91 | 93 => Option::Some(Lexeme::VecParen),
        _ => Option::None,
    }
}

/// The closing byte of a delimiter family; `None` on non-delimiter kinds.
pub fn get_matching_paren(c: &Lexeme) -> (r: Option<u8>)
    ensures
        match r {
            Option::Some(b) => (*c == Lexeme::ListParen && b == 41) || (*c == Lexeme::MapParen && b
                == 125) || (*c == Lexeme::VecParen && b == 93),
            Option::None => *c == Lexeme::Atom || *c == Lexeme::String,
        },
{
    match *c {
        Lexeme::ListParen => Option::Some(41),
        Lexeme::MapParen => Option::Some(125),
        Lexeme::VecParen => Option::Some(93),
        _ => Option::None,
    }
}

pub fn is_paren(c: &u8) -> (r: bool)
    ensures
        r == is_paren_spec(*c),
{
    match *c {
        40 | 41 | 91 | 93 | 123 | 125 => true,
        _ => false,
    }
}

/// Space, tab, CR, LF and comma (a no-op separator in this notation).
pub fn is_whitespace(c: &u8) -> (r: bool)
    ensures
        r == is_ws_spec(*c),
{
    match *c {
        9 | 10 | 13 | 32 | 44 => true,
        _ => false,
    }
}

/// The pending span as a token sequence: one atom unit when non-empty.
pub open spec fn flush_tok(p: Seq<u8>) -> Seq<TokenV> {
    if p.len() > 0 {
        seq![TokenV { kind: Lexeme::Atom, text: p }]
    } else {
        seq![]
    }
}

/// A pending span that is flushed as its own atom before the next ordinary
/// byte joins: the two-byte discard marker, or an escape byte plus one more.
/// This lets those act as single-token prefixes that attach to what follows.
pub open spec fn early_flush(p: Seq<u8>) -> bool {
    p.len() == 2 && (p == seq![35u8, 95u8] || p[0] == 92)
}

/// One byte of the scan: the units emitted and the state after.
pub open spec fn lex_step(c: u8, st: LexState) -> (Seq<TokenV>, LexState) {
    match st.mode {
        LexMode::InComment => if c == 10 {
            (seq![], LexState { pend: seq![], esc: false, mode: LexMode::Norm })
        } else {
            (seq![], st)
        },
        LexMode::InString => if st.esc {
            (seq![], LexState { pend: st.pend.push(c), esc: false, mode: LexMode::InString })
        } else if c == 92 {
            (seq![], LexState { pend: st.pend.push(c), esc: true, mode: LexMode::InString })
        } else if c == 34 {
            (
                seq![TokenV { kind: Lexeme::String, text: st.pend }],
                LexState { pend: seq![], esc: false, mode: LexMode::Norm },
            )
        } else {
            (seq![], LexState { pend: st.pend.push(c), esc: false, mode: LexMode::InString })
        },
        LexMode::Norm => if !st.esc && c == 59 {
            (flush_tok(st.pend), LexState { pend: seq![], esc: false, mode: LexMode::InComment })
        } else if !st.esc && c == 34 {
            (flush_tok(st.pend), LexState { pend: seq![], esc: false, mode: LexMode::InString })
        } else if is_paren_spec(c) {
            (
                flush_tok(st.pend) + seq![TokenV { kind: paren_kind(c), text: seq![] }],
                LexState { pend: seq![], esc: false, mode: LexMode::Norm },
            )
        } else if is_ws_spec(c) {
            (flush_tok(st.pend), LexState { pend: seq![], esc: false, mode: LexMode::Norm })
        } else {
            (
                if early_flush(st.pend) {
                    flush_tok(st.pend)
                } else {
                    seq![]
                },
                LexState {
                    pend: (if early_flush(st.pend) {
                        seq![]
                    } else {
                        st.pend
                    }).push(c),
                    esc: !st.esc && c == 92,
                    mode: LexMode::Norm,
                },
            )
        },
    }
}

/// The state after scanning all of `s` from `st`.
pub open spec fn lex_state(s: Seq<u8>, st: LexState) -> LexState
    decreases s,
{
    if s.len() == 0 {
        st
    } else {
        lex_state(s.skip(1), lex_step(s[0], st).1)
    }
}

/// The units emitted while scanning all of `s` from `st` (without the
/// end-of-input flush).
pub open spec fn lex_emit(s: Seq<u8>, st: LexState) -> Seq<TokenV>
    decreases s,
{
    if s.len() == 0 {
        seq![]
    } else {
        lex_step(s[0], st).0 + lex_emit(s.skip(1), lex_step(s[0], st).1)
    }
}

/// The whole tokenization: the emitted units plus the end-of-input flush of
/// a pending atom; `None` exactly when the input ends inside a string.
pub open spec fn lex_spec(s: Seq<u8>) -> Option<Seq<TokenV>> {
    let fin = lex_state(s, init_lex_state());
    if fin.mode == LexMode::InString {
        Option::None
    } else {
        Option::Some(lex_emit(s, init_lex_state()) + flush_tok(fin.pend))
    }
}

/// Scanning a concatenation: scan the first part, then the second from the
/// state the first one left.
pub proof fn lemma_lex_split(a: Seq<u8>, b: Seq<u8>, st: LexState)
    ensures
        lex_state(a + b, st) == lex_state(b, lex_state(a, st)),
        lex_emit(a + b, st) == lex_emit(a, st) + lex_emit(b, lex_state(a, st)),
    decreases a,
{
    if a.len() == 0 {
        assert(a + b =~= b);
        assert(lex_emit(a, st) + lex_emit(b, lex_state(a, st)) =~= lex_emit(b, lex_state(a, st)));
    } else {
        let st1 = lex_step(a[0], st).1;
        assert((a + b).skip(1) =~= a.skip(1) + b);
        assert((a + b)[0] == a[0]);
        lemma_lex_split(a.skip(1), b, st1);
        assert(lex_emit(a + b, st) =~= lex_emit(a, st) + lex_emit(b, lex_state(a, st)));
    }
}

/// One byte of scan, as `lex_state`/`lex_emit` see it.
pub proof fn lemma_lex_one(c: u8, st: LexState)
    ensures
        lex_state(seq![c], st) == lex_step(c, st).1,
        lex_emit(seq![c], st) == lex_step(c, st).0,
{
    let st1 = lex_step(c, st).1;
    assert(seq![c].skip(1) =~= Seq::<u8>::empty());
    assert(lex_state(Seq::<u8>::empty(), st1) == st1);
    assert(lex_emit(Seq::<u8>::empty(), st1) == Seq::<TokenV>::empty());
    assert(seq![c][0] == c);
    assert(lex_state(seq![c], st) == lex_state(seq![c].skip(1), st1));
    assert(lex_emit(seq![c], st) == lex_step(c, st).0 + lex_emit(seq![c].skip(1), st1));
    assert(lex_step(c, st).0 + Seq::<TokenV>::empty() =~= lex_step(c, st).0);
}

pub proof fn lemma_toks_view_push(ts: Seq<Token>, t: Token)
    ensures
        toks_view(ts.push(t)) == toks_view(ts).push(t@),
{
    assert(toks_view(ts.push(t)) =~= toks_view(ts).push(t@));
}

/// Appends one unit spanning `input[start..end]` to the unit stream.
pub fn push_lex(input: &[u8], start: usize, end: usize, lexeme: Lexeme, stack: &mut Vec<Token>)
    requires
        start <= end <= input@.len(),
    ensures
        final(stack)@.len() == old(stack)@.len() + 1,
        toks_view(final(stack)@) == toks_view(old(stack)@).push(
            TokenV { kind: lexeme, text: input@.subrange(start as int, end as int) },
        ),
{
    let z = slice_to_vec(slice_subrange(input, start, end));
    let t = Token { kind: lexeme, text: z };
    proof {
        lemma_toks_view_push(stack@, t);
    }
    stack.push(t);
}

/// Tokenizes the input. `None` exactly when the input ends inside an
/// unterminated string literal; no other failure exists at this level.
pub fn lex(s: &[u8]) -> (r: Option<Vec<Token>>)
    ensures
        match r {
            Option::Some(ts) => lex_spec(s@) == Option::Some(toks_view(ts@)),
            Option::None => lex_spec(s@) is None,
        },
{
    let n = s.len();
    let mut tokens: Vec<Token> = Vec::new();
    let mut escaping = false;
    let mut in_string = false;
    let mut in_comment = false;
    let mut token: usize = 0;
    let mut pos: usize = 0;
    while pos < n
        invariant
            0 <= pos <= n == s@.len(),
            token <= pos,
            !(in_string && in_comment),
            in_comment ==> token == pos,
            in_string ==> token <= pos,
            lex_state(s@.subrange(0, pos as int), init_lex_state()) == (LexState {
                pend: s@.subrange(token as int, pos as int),
                esc: escaping,
                mode: if in_comment {
                    LexMode::InComment
                } else if in_string {
                    LexMode::InString
                } else {
                    LexMode::Norm
                },
            }),
            toks_view(tokens@) == lex_emit(s@.subrange(0, pos as int), init_lex_state()),
        decreases n - pos,
    {
        let c = s[pos];
        let ghost pre = s@.subrange(0, pos as int);
        let ghost st = lex_state(pre, init_lex_state());
        proof {
            assert(s@.subrange(0, pos as int + 1) =~= pre + seq![c]);
            lemma_lex_split(pre, seq![c], init_lex_state());
            lemma_lex_one(c, st);
        }
        if in_comment {
            if c == 10 {
                in_comment = false;
                escaping = false;
                token = pos + 1;
            } else {
                token = pos + 1;
            }
            proof {
                assert(s@.subrange(token as int, pos as int + 1) =~= st.pend);
                assert(s@.subrange(pos as int + 1, pos as int + 1) =~= Seq::<u8>::empty());
                assert(toks_view(tokens@) + seq![] =~= toks_view(tokens@));
            }
        } else if in_string {
            if escaping {
                escaping = false;
                proof {
                    assert(s@.subrange(token as int, pos as int + 1) =~= st.pend.push(c));
                    assert(toks_view(tokens@) + seq![] =~= toks_view(tokens@));
                }
            } else if c == 92 {
                escaping = true;
                proof {
                    assert(s@.subrange(token as int, pos as int + 1) =~= st.pend.push(c));
                    assert(toks_view(tokens@) + seq![] =~= toks_view(tokens@));
                }
            } else if c == 34 {
                push_lex(s, token, pos, Lexeme::String, &mut tokens);
                in_string = false;
                token = pos + 1;
                proof {
                    assert(s@.subrange(pos as int + 1, pos as int + 1) =~= Seq::<u8>::empty());
                    assert(toks_view(tokens@) =~= lex_emit(pre, init_lex_state()) + lex_step(
                        c,
                        st,
                    ).0);
                }
            } else {
                proof {
                    assert(s@.subrange(token as int, pos as int + 1) =~= st.pend.push(c));
                    assert(toks_view(tokens@) + seq![] =~= toks_view(tokens@));
                }
            }
        } else if !escaping && c == 59 {
            if token != pos {
                push_lex(s, token, pos, Lexeme::Atom, &mut tokens);
            }
            in_comment = true;
            escaping = false;
            token = pos + 1;
            proof {
                assert(s@.subrange(pos as int + 1, pos as int + 1) =~= Seq::<u8>::empty());
                assert(toks_view(tokens@) =~= lex_emit(pre, init_lex_state()) + lex_step(c, st).0);
            }
        } else if !escaping && c == 34 {
            if token != pos {
                push_lex(s, token, pos, Lexeme::Atom, &mut tokens);
            }
            in_string = true;
            escaping = false;
            token = pos + 1;
            proof {
                assert(s@.subrange(pos as int + 1, pos as int + 1) =~= Seq::<u8>::empty());
                assert(toks_view(tokens@) =~= lex_emit(pre, init_lex_state()) + lex_step(c, st).0);
            }
        } else if is_paren(&c) || is_whitespace(&c) {
            if token != pos {
                push_lex(s, token, pos, Lexeme::Atom, &mut tokens);
            }
            if is_paren(&c) {
                match get_paren_lexeme(c) {
                    Option::Some(l) => {
                        push_lex(s, pos, pos, l, &mut tokens);
                    },
                    Option::None => {
                        // is_paren and get_paren_lexeme cover the same bytes
                    },
                }
            }
            escaping = false;
            token = pos + 1;
            proof {
                assert(s@.subrange(pos as int, pos as int) =~= Seq::<u8>::empty());
                assert(s@.subrange(pos as int + 1, pos as int + 1) =~= Seq::<u8>::empty());
                assert(toks_view(tokens@) =~= lex_emit(pre, init_lex_state()) + lex_step(c, st).0);
            }
        } else {
            let diff = pos - token;
            if (diff == 2 && s[token] == 35 && s[token + 1] == 95) || (diff == 2 && s[token] == 92)
            {
                proof {
                    if s@[token as int] == 35 && s@[token as int + 1] == 95 {
                        assert(st.pend =~= seq![35u8, 95u8]);
                    }
                    assert(early_flush(st.pend));
                }
                push_lex(s, token, pos, Lexeme::Atom, &mut tokens);
                token = pos;
                proof {
                    assert(toks_view(tokens@) =~= lex_emit(pre, init_lex_state()) + lex_step(
                        c,
                        st,
                    ).0);
                }
            } else {
                proof {
                    if early_flush(st.pend) {
                        assert(st.pend.len() == 2);
                        assert(s@[token as int] == st.pend[0]);
                        assert(s@[token as int + 1] == st.pend[1]);
                    }
                    assert(!early_flush(st.pend));
                    assert(toks_view(tokens@) + seq![] =~= toks_view(tokens@));
                }
            }
            if escaping {
                escaping = false;
            } else if c == 92 {
                escaping = true;
            }
            proof {
                assert(s@.subrange(token as int, pos as int + 1) =~= lex_step(c, st).1.pend);
            }
        }
        pos += 1;
    }
    proof {
        assert(s@.subrange(0, n as int) =~= s@);
    }
    if in_string {
        return Option::None;
    }
    if token != pos {
        push_lex(s, token, pos, Lexeme::Atom, &mut tokens);
        proof {
            assert(toks_view(tokens@) =~= lex_emit(s@, init_lex_state()) + flush_tok(
                lex_state(s@, init_lex_state()).pend,
            ));
        }
    } else {
        proof {
            assert(toks_view(tokens@) =~= lex_emit(s@, init_lex_state()) + flush_tok(
                lex_state(s@, init_lex_state()).pend,
            ));
        }
    }
    Option::Some(tokens)
}

} // verus!
