use edn::{edn_read, edn_write, Node, ReadError};

fn read(s: &str) -> Node {
    edn_read(s.as_bytes()).unwrap()
}

fn write(n: Node) -> Vec<u8> {
    edn_write(n)
}

#[test]
fn numeric_precision_preserved() {
    let n = read("4N");
    assert_eq!(n, Node::Int(b"4".to_vec(), true));
    assert_eq!(write(n), b"4N".to_vec());
}

#[test]
fn signed_precision_int_strips_suffix() {
    let n = read("+42N");
    assert_eq!(n, Node::Int(b"+42".to_vec(), true));
    assert_eq!(write(n), b"+42N".to_vec());
}

#[test]
fn plain_ints_round_trip() {
    assert_eq!(read("0"), Node::Int(b"0".to_vec(), false));
    assert_eq!(read("-7"), Node::Int(b"-7".to_vec(), false));
    assert_eq!(write(read("-7")), b"-7".to_vec());
    assert_eq!(write(read("12345678901234567890")), b"12345678901234567890".to_vec());
}

#[test]
fn decimal_exactness_preserved() {
    let n = read("1.23M");
    assert_eq!(n, Node::Float(b"1".to_vec(), b"23".to_vec(), b"".to_vec(), true));
    assert_eq!(write(n), b"1.23M".to_vec());
}

#[test]
fn exponent_round_trip() {
    let up = read(".23E+1");
    assert_eq!(up, Node::Float(b"".to_vec(), b"23".to_vec(), b"+1".to_vec(), false));
    assert_eq!(write(up), b".23E+1".to_vec());
    let down = read(".23E-1");
    assert_eq!(write(down), b".23E-1".to_vec());
}

#[test]
fn empty_exponent_is_malformed() {
    match edn_read(b".23E") {
        Err(ReadError::Malformed(span)) => assert_eq!(span, b".23E".to_vec()),
        other => panic!("expected a malformed atom, got {:?}", other),
    }
}

#[test]
fn float_with_exponent_and_precision() {
    let n = read("1.2E3M");
    assert_eq!(n, Node::Float(b"1".to_vec(), b"2".to_vec(), b"3".to_vec(), true));
    assert_eq!(write(n), b"1.2E3M".to_vec());
}

#[test]
fn dot_without_fraction_is_malformed() {
    assert!(matches!(edn_read(b"1."), Err(ReadError::Malformed(_))));
}

#[test]
fn namespaced_tokens() {
    assert_eq!(read(":ns/kw"), Node::Keyword(Some(b"ns".to_vec()), b"kw".to_vec()));
    assert_eq!(read("ns/name"), Node::Symbol(Some(b"ns".to_vec()), b"name".to_vec()));
    assert_eq!(read(":kw"), Node::Keyword(None, b"kw".to_vec()));
}

#[test]
fn namespaced_tokens_round_trip() {
    assert_eq!(write(read(":ns/kw")), b":ns/kw".to_vec());
    assert_eq!(write(read("ns/name")), b"ns/name".to_vec());
}

#[test]
fn lone_slash_is_the_division_symbol() {
    assert_eq!(read("/"), Node::Symbol(None, b"/".to_vec()));
    assert_eq!(write(read("/")), b"/".to_vec());
}

#[test]
fn two_slashes_are_malformed() {
    assert!(matches!(edn_read(b"a/b/c"), Err(ReadError::Malformed(_))));
}

#[test]
fn nil_literal() {
    assert_eq!(read("nil"), Node::Nil);
    assert_eq!(write(Node::Nil), b"nil".to_vec());
}

#[test]
fn true_reads_as_a_symbol() {
    // the ordered grammar tries symbols before booleans, and `true` is a
    // valid symbol; a Bool node is still writable when built by a caller
    assert_eq!(read("true"), Node::Symbol(None, b"true".to_vec()));
    assert_eq!(write(Node::Bool(b"true".to_vec())), b"true".to_vec());
}

#[test]
fn char_nodes_render_with_a_backslash() {
    assert_eq!(write(Node::Char('a')), b"\\a".to_vec());
}

#[test]
fn backslash_atom_is_malformed() {
    assert!(matches!(edn_read(b"\\a"), Err(ReadError::Malformed(_))));
}
