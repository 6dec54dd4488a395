//! The literal grammar: deciding what an atom's text denotes.
//!
//! An atom resolves, in order, to the `nil` literal, a keyword, a symbol, a
//! boolean, an integer or a floating-point literal; the first grammar that
//! accepts it wins, and an atom no grammar accepts is malformed.

use vstd::prelude::*;
use vstd::slice::{slice_subrange, slice_to_vec};

verus! {

pub open spec fn is_digit_spec(c: u8) -> bool {
    48 <= c <= 57
}

/// ASCII digits 0-9 only.
pub fn is_digit(c: u8) -> (r: bool)
    ensures
        r == is_digit_spec(c),
{
    48 <= c && c <= 57
}

pub open spec fn all_digits(s: Seq<u8>) -> bool {
    forall|i: int| 0 <= i < s.len() ==> is_digit_spec(s[i])
}

pub open spec fn nil_text() -> Seq<u8> {
    seq![110u8, 105u8, 108u8]
}

pub open spec fn true_text() -> Seq<u8> {
    seq![116u8, 114u8, 117u8, 101u8]
}

pub open spec fn false_text() -> Seq<u8> {
    seq![102u8, 97u8, 108u8, 115u8, 101u8]
}

/// The first index holding byte `c`, or `s.len()` when `c` does not occur.
pub open spec fn find_byte(s: Seq<u8>, c: u8) -> int
    decreases s,
{
    if s.len() == 0 {
        0
    } else if s[0] == c {
        0
    } else {
        1 + find_byte(s.skip(1), c)
    }
}

/// `find_byte` is pinned by any index that the defining scan must reach.
pub proof fn lemma_find_byte_is(s: Seq<u8>, c: u8, i: int)
    requires
        0 <= i < s.len(),
        s[i] == c,
        forall|j: int| 0 <= j < i ==> s[j] != c,
    ensures
        find_byte(s, c) == i,
    decreases s,
{
    if i > 0 {
        lemma_find_byte_is(s.skip(1), c, i - 1);
    }
}

pub proof fn lemma_find_byte_none(s: Seq<u8>, c: u8)
    requires
        forall|j: int| 0 <= j < s.len() ==> s[j] != c,
    ensures
        find_byte(s, c) == s.len(),
    decreases s,
{
    if s.len() > 0 {
        lemma_find_byte_none(s.skip(1), c);
    }
}

/// Finds the first occurrence of `c`, returning `s.len()` when absent.
pub fn find_first(s: &[u8], c: u8) -> (r: usize)
    ensures
        r == find_byte(s@, c),
        r <= s@.len(),
{
    let n = s.len();
    let mut i: usize = 0;
    while i < n
        invariant
            0 <= i <= n == s@.len(),
            forall|j: int| 0 <= j < i ==> s@[j] != c,
        decreases n - i,
    {
        if s[i] == c {
            proof {
                lemma_find_byte_is(s@, c, i as int);
            }
            return i;
        }
        i += 1;
    }
    proof {
        lemma_find_byte_none(s@, c);
    }
    n
}

/// The bytes a symbol or keyword body may contain: alphanumerics and
/// `. * + ! - _ ? $ % & = : # /`.
pub open spec fn is_sym_char_spec(c: u8) -> bool {
    is_digit_spec(c) || (65 <= c <= 90) || (97 <= c <= 122) || c == 46 || c == 42 || c == 43
        || c == 33 || c == 45 || c == 95 || c == 63 || c == 36 || c == 37 || c == 38 || c == 61
        || c == 58 || c == 35 || c == 47
}

pub fn is_sym_char(c: u8) -> (r: bool)
    ensures
        r == is_sym_char_spec(c),
{
    is_digit(c) || (65 <= c && c <= 90) || (97 <= c && c <= 122) || c == 46 || c == 42 || c == 43
        || c == 33 || c == 45 || c == 95 || c == 63 || c == 36 || c == 37 || c == 38 || c == 61
        || c == 58 || c == 35 || c == 47
}

/// What a symbol's first bytes must not look like: empty, a leading digit,
/// colon or hash, a slash that is not the whole span (the lone slash is the
/// division symbol), or a sign or dot immediately followed by a digit
/// (reserved for numeric literals).
pub open spec fn sym_head_ok(s: Seq<u8>) -> bool {
    s.len() > 0 && !is_digit_spec(s[0]) && s[0] != 58 && s[0] != 35 && !(s[0] == 47 && s.len()
        != 1) && !(s.len() > 1 && (s[0] == 45 || s[0] == 43 || s[0] == 46) && is_digit_spec(s[1]))
}

/// A well-formed symbol body: valid head, only symbol bytes, and at most one
/// slash.
pub open spec fn sym_ok(s: Seq<u8>) -> bool {
    sym_head_ok(s) && (forall|i: int| 0 <= i < s.len() ==> is_sym_char_spec(s[i])) && (forall|
        j: int,
    | find_byte(s, 47) < j < s.len() ==> s[j] != 47)
}

/// Splits a symbol body at its slash, when one is present, into
/// `(namespace, name)`; the lone slash stands for itself, without a
/// namespace.
pub open spec fn parse_symbol_spec(s: Seq<u8>) -> Option<(Option<Seq<u8>>, Seq<u8>)> {
    if !sym_ok(s) {
        Option::None
    } else if s == seq![47u8] {
        Option::Some((Option::None, s))
    } else if find_byte(s, 47) < s.len() {
        Option::Some(
            (
                Option::Some(s.subrange(0, find_byte(s, 47))),
                s.subrange(find_byte(s, 47) + 1, s.len() as int),
            ),
        )
    } else {
        Option::Some((Option::None, s))
    }
}

pub open spec fn parse_keyword_spec(s: Seq<u8>) -> Option<(Option<Seq<u8>>, Seq<u8>)> {
    if s.len() > 0 && s[0] == 58 {
        parse_symbol_spec(s.skip(1))
    } else {
        Option::None
    }
}

/// Decides whether an atom is a symbol and, when it is, splits it into its
/// optional namespace and its name.
pub fn parse_symbol(s: &[u8]) -> (r: Option<(Option<Vec<u8>>, Vec<u8>)>)
    ensures
        match r {
            Option::Some((ns, nm)) => parse_symbol_spec(s@) == Option::Some(
                (crate::types::opt_bytes_view(ns), nm@),
            ),
            Option::None => parse_symbol_spec(s@) is None,
        },
{
    let n = s.len();
    if n == 0 || is_digit(s[0]) || s[0] == 58 || s[0] == 35 || (s[0] == 47 && n != 1) || (n > 1 && (
    s[0] == 45 || s[0] == 43 || s[0] == 46) && is_digit(s[1])) {
        return Option::None;
    }
    if n == 1 && s[0] == 47 {
        proof {
            assert(s@ =~= seq![47u8]);
            lemma_find_byte_is(s@, 47, 0);
        }
        return Option::Some((Option::None, slice_to_vec(s)));
    }
    let mut i: usize = 0;
    let mut slash: usize = n;
    while i < n
        invariant
            0 <= i <= n == s@.len(),
            forall|j: int| 0 <= j < i ==> is_sym_char_spec(s@[j]),
            slash <= n,
            slash == n ==> forall|j: int| 0 <= j < i ==> s@[j] != 47,
            slash < n ==> slash < i && s@[slash as int] == 47 && (forall|j: int|
                0 <= j < slash ==> s@[j] != 47) && (forall|j: int|
                slash < j < i ==> s@[j] != 47),
        decreases n - i,
    {
        let c = s[i];
        if !is_sym_char(c) {
            return Option::None;
        }
        if c == 47 {
            if slash < n {
                proof {
                    lemma_find_byte_is(s@, 47, slash as int);
                }
                return Option::None;
            }
            slash = i;
        }
        i += 1;
    }
    if slash < n {
        proof {
            lemma_find_byte_is(s@, 47, slash as int);
        }
        let ns = slice_to_vec(slice_subrange(s, 0, slash));
        let nm = slice_to_vec(slice_subrange(s, slash + 1, n));
        Option::Some((Option::Some(ns), nm))
    } else {
        proof {
            lemma_find_byte_none(s@, 47);
        }
        Option::Some((Option::None, slice_to_vec(s)))
    }
}

/// A keyword is a colon followed by a symbol body.
pub fn parse_keyword(s: &[u8]) -> (r: Option<(Option<Vec<u8>>, Vec<u8>)>)
    ensures
        match r {
            Option::Some((ns, nm)) => parse_keyword_spec(s@) == Option::Some(
                (crate::types::opt_bytes_view(ns), nm@),
            ),
            Option::None => parse_keyword_spec(s@) is None,
        },
{
    if s.len() == 0 || s[0] != 58 {
        return Option::None;
    }
    let body = slice_subrange(s, 1, s.len());
    proof {
        assert(body@ =~= s@.skip(1));
    }
    parse_symbol(body)
}

pub open spec fn valid_bool_spec(s: Seq<u8>) -> bool {
    s == true_text() || s == false_text()
}

/// Exactly the two boolean literal texts.
pub fn valid_bool(s: &[u8]) -> (r: bool)
    ensures
        r == valid_bool_spec(s@),
{
    if s.len() == 4 && s[0] == 116 && s[1] == 114 && s[2] == 117 && s[3] == 101 {
        proof {
            assert(s@ =~= true_text());
        }
        true
    } else if s.len() == 5 && s[0] == 102 && s[1] == 97 && s[2] == 108 && s[3] == 115 && s[4]
        == 101 {
        proof {
            assert(s@ =~= false_text());
        }
        true
    } else {
        proof {
            if s@ == true_text() {
                assert(s@.len() == 4 && s@[0] == 116 && s@[1] == 114 && s@[2] == 117 && s@[3]
                    == 101);
            }
            if s@ == false_text() {
                assert(s@.len() == 5 && s@[0] == 102 && s@[1] == 97 && s@[2] == 108 && s@[3] == 115
                    && s@[4] == 101);
            }
        }
        false
    }
}

/// An unsigned integer literal: one or more digits, with an optional
/// trailing `N` (accepted only when `allow` holds) stripped from the
/// returned span and recorded as the arbitrary-precision flag.
pub open spec fn parse_uint_spec(s: Seq<u8>, allow: bool) -> Option<(Seq<u8>, bool)>
    decreases s,
{
    if s.len() == 0 {
        Option::None
    } else if s.last() == 78 {
        if allow {
            match parse_uint_spec(s.drop_last(), false) {
                Option::Some((x, _)) => Option::Some((x, true)),
                Option::None => Option::None,
            }
        } else {
            Option::None
        }
    } else if all_digits(s) {
        Option::Some((s, false))
    } else {
        Option::None
    }
}

/// An integer literal: an optional sign, then an unsigned integer literal.
/// The precision suffix is stripped from the returned span in the signed
/// case too.
pub open spec fn parse_int_spec(s: Seq<u8>, allow: bool) -> Option<(Seq<u8>, bool)> {
    if s.len() > 0 && (s[0] == 45 || s[0] == 43) {
        match parse_uint_spec(s.skip(1), allow) {
            Option::Some((x, p)) => Option::Some((seq![s[0]] + x, p)),
            Option::None => Option::None,
        }
    } else {
        parse_uint_spec(s, allow)
    }
}

pub fn parse_unsigned_int(s: &[u8], allow_precision: bool) -> (r: Option<(Vec<u8>, bool)>)
    ensures
        match r {
            Option::Some((x, p)) => parse_uint_spec(s@, allow_precision) == Option::Some((x@, p)),
            Option::None => parse_uint_spec(s@, allow_precision) is None,
        },
    decreases s@.len(),
{
    let n = s.len();
    if n == 0 {
        return Option::None;
    }
    if s[n - 1] == 78 {
        if allow_precision {
            let head = slice_subrange(s, 0, n - 1);
            proof {
                assert(head@ =~= s@.drop_last());
            }
            match parse_unsigned_int(head, false) {
                Option::Some((x, _)) => Option::Some((x, true)),
                Option::None => Option::None,
            }
        } else {
            Option::None
        }
    } else {
        let mut i: usize = 0;
        while i < n
            invariant
                0 < n == s@.len(),
                0 <= i <= n,
                s@[n - 1] != 78,
                forall|j: int| 0 <= j < i ==> is_digit_spec(s@[j]),
            decreases n - i,
        {
            if !is_digit(s[i]) {
                return Option::None;
            }
            i += 1;
        }
        Option::Some((slice_to_vec(s), false))
    }
}

pub fn parse_int(s: &[u8], allow_precision: bool) -> (r: Option<(Vec<u8>, bool)>)
    ensures
        match r {
            Option::Some((x, p)) => parse_int_spec(s@, allow_precision) == Option::Some((x@, p)),
            Option::None => parse_int_spec(s@, allow_precision) is None,
        },
{
    if s.len() > 0 && (s[0] == 45 || s[0] == 43) {
        let tail = slice_subrange(s, 1, s.len());
        proof {
            assert(tail@ =~= s@.skip(1));
        }
        match parse_unsigned_int(tail, allow_precision) {
            Option::Some((x, p)) => {
                let ghost xs = x@;
                let mut v: Vec<u8> = Vec::new();
                v.push(s[0]);
                let mut x = x;
                v.append(&mut x);
                proof {
                    assert(v@ =~= seq![s@[0]] + xs);
                }
                Option::Some((v, p))
            },
            Option::None => Option::None,
        }
    } else {
        parse_unsigned_int(s, allow_precision)
    }
}

/// A floating-point literal: integral part (optionally signed, possibly
/// empty), a dot, a non-empty digit fraction, an optional `E` and signed
/// exponent, and an optional trailing `M` (exact-decimal flag, stripped).
pub open spec fn parse_float_spec(s: Seq<u8>, allow: bool) -> Option<
    (Seq<u8>, Seq<u8>, Seq<u8>, bool),
>
    decreases s,
{
    if s.len() == 0 {
        Option::None
    } else if s.last() == 77 {
        if allow {
            match parse_float_spec(s.drop_last(), false) {
                Option::Some((i, f, e, _)) => Option::Some((i, f, e, true)),
                Option::None => Option::None,
            }
        } else {
            Option::None
        }
    } else {
        let dp = find_byte(s, 46);
        if dp == s.len() {
            Option::None
        } else {
            let integral = s.subrange(0, dp);
            let rest = s.subrange(dp + 1, s.len() as int);
            if integral.len() > 0 && parse_int_spec(integral, false) is None {
                Option::None
            } else {
                let ep = find_byte(rest, 69);
                if ep == rest.len() {
                    match parse_uint_spec(rest, false) {
                        Option::Some((f, _)) => Option::Some((integral, f, seq![], false)),
                        Option::None => Option::None,
                    }
                } else {
                    let frac = rest.subrange(0, ep);
                    let ex = rest.subrange(ep + 1, rest.len() as int);
                    match (parse_uint_spec(frac, false), parse_int_spec(ex, false)) {
                        (Option::Some((f, _)), Option::Some((e, _))) => Option::Some(
                            (integral, f, e, false),
                        ),
                        _ => Option::None,
                    }
                }
            }
        }
    }
}

/// Classifies an atom's text: the `nil` literal, a keyword, a symbol, a
/// boolean, an integer or a float, in that order; the first grammar that
/// accepts wins, and `None` means the atom is malformed.
pub open spec fn atom_node_spec(t: Seq<u8>) -> Option<crate::types::GNode> {
    if t == nil_text() {
        Option::Some(crate::types::GNode::Nil)
    } else {
        match parse_keyword_spec(t) {
            Option::Some((ns, nm)) => Option::Some(crate::types::GNode::Keyword(ns, nm)),
            Option::None => match parse_symbol_spec(t) {
                Option::Some((ns, nm)) => Option::Some(crate::types::GNode::Symbol(ns, nm)),
                Option::None => if valid_bool_spec(t) {
                    Option::Some(crate::types::GNode::Bool(t))
                } else {
                    match parse_int_spec(t, true) {
                        Option::Some((d, p)) => Option::Some(crate::types::GNode::Int(d, p)),
                        Option::None => match parse_float_spec(t, true) {
                            Option::Some((i, f, e, p)) => Option::Some(
                                crate::types::GNode::Float(i, f, e, p),
                            ),
                            Option::None => Option::None,
                        },
                    }
                },
            },
        }
    }
}

pub fn parse_float(s: &[u8], allow_precision: bool) -> (r: Option<(Vec<u8>, Vec<u8>, Vec<u8>, bool)>)
    ensures
        match r {
            Option::Some((i, f, e, p)) => parse_float_spec(s@, allow_precision) == Option::Some(
                (i@, f@, e@, p),
            ),
            Option::None => parse_float_spec(s@, allow_precision) is None,
        },
    decreases s@.len(),
{
    let n = s.len();
    if n == 0 {
        return Option::None;
    }
    if s[n - 1] == 77 {
        if allow_precision {
            let head = slice_subrange(s, 0, n - 1);
            proof {
                assert(head@ =~= s@.drop_last());
            }
            match parse_float(head, false) {
                Option::Some((i, f, e, _)) => Option::Some((i, f, e, true)),
                Option::None => Option::None,
            }
        } else {
            Option::None
        }
    } else {
        let dp = find_first(s, 46);
        if dp == n {
            return Option::None;
        }
        let integral = slice_subrange(s, 0, dp);
        let rest = slice_subrange(s, dp + 1, n);
        let ii = parse_int(integral, false);
        if integral.len() > 0 && ii.is_none() {
            return Option::None;
        }
        let ep = find_first(rest, 69);
        if ep == rest.len() {
            match parse_unsigned_int(rest, false) {
                Option::Some((f, _)) => Option::Some(
                    (slice_to_vec(integral), f, Vec::new(), false),
                ),
                Option::None => Option::None,
            }
        } else {
            let frac = slice_subrange(rest, 0, ep);
            let ex = slice_subrange(rest, ep + 1, rest.len());
            match (parse_unsigned_int(frac, false), parse_int(ex, false)) {
                (Option::Some((f, _)), Option::Some((e, _))) => Option::Some(
                    (slice_to_vec(integral), f, e, false),
                ),
                _ => Option::None,
            }
        }
    }
}

} // verus!
