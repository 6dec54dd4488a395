use edn::{edn_read, edn_write, Node, ReadError};

fn read(s: &str) -> Node {
    edn_read(s.as_bytes()).unwrap()
}

fn num(s: &str) -> Node {
    Node::Int(s.as_bytes().to_vec(), false)
}

#[test]
fn nested_collections() {
    let n = read("[:ns/kw \"LONG STRING\" :a \"\" (1 2 3)]");
    match &n {
        Node::Vector(children) => {
            assert_eq!(children.len(), 5);
            assert_eq!(children[0], Node::Keyword(Some(b"ns".to_vec()), b"kw".to_vec()));
            assert_eq!(children[1], Node::String(b"LONG STRING".to_vec()));
            assert_eq!(children[2], Node::Keyword(None, b"a".to_vec()));
            assert_eq!(children[3], Node::String(b"".to_vec()));
            assert_eq!(children[4], Node::List(vec![num("1"), num("2"), num("3")]));
        },
        other => panic!("expected a vector, got {:?}", other),
    }
    assert_eq!(edn_write(n), b"[:ns/kw \"LONG STRING\" :a \"\" (1 2 3)]".to_vec());
}

#[test]
fn unterminated_collection_fails() {
    assert_eq!(edn_read(b"(1 2 3"), Err(ReadError::UnexpectedEof));
}

#[test]
fn empty_input_fails() {
    assert_eq!(edn_read(b""), Err(ReadError::EmptyInput));
    assert_eq!(edn_read(b" ,\t\n"), Err(ReadError::EmptyInput));
}

#[test]
fn empty_collections() {
    assert_eq!(read("()"), Node::List(vec![]));
    assert_eq!(read("[]"), Node::Vector(vec![]));
    assert_eq!(read("{}"), Node::MapLit(vec![]));
    assert_eq!(edn_write(read("()")), b"()".to_vec());
    assert_eq!(edn_write(read("[]")), b"[]".to_vec());
    assert_eq!(edn_write(read("{}")), b"{}".to_vec());
}

#[test]
fn commas_are_separators() {
    assert_eq!(read("[1, 2,3]"), Node::Vector(vec![num("1"), num("2"), num("3")]));
    assert_eq!(edn_write(read("[1, 2,3]")), b"[1 2 3]".to_vec());
}

#[test]
fn maps_keep_children_in_order() {
    let n = read("{:a 1 :b 2}");
    assert_eq!(
        n,
        Node::MapLit(vec![
            Node::Keyword(None, b"a".to_vec()),
            num("1"),
            Node::Keyword(None, b"b".to_vec()),
            num("2"),
        ])
    );
    assert_eq!(edn_write(n), b"{:a 1 :b 2}".to_vec());
}

#[test]
fn sets_read_and_write() {
    let n = read("#{1 2}");
    assert_eq!(n, Node::SetLit(vec![num("1"), num("2")]));
    assert_eq!(edn_write(n), b"#{1 2}".to_vec());
}

#[test]
fn set_nested_in_map() {
    let n = read("{:a #{1}}");
    assert_eq!(
        n,
        Node::MapLit(vec![Node::Keyword(None, b"a".to_vec()), Node::SetLit(vec![num("1")])])
    );
    assert_eq!(edn_write(n), b"{:a #{1}}".to_vec());
}

#[test]
fn tagged_element() {
    let n = read("#inst 5");
    assert_eq!(n, Node::Tagged(b"inst".to_vec(), Box::new(num("5"))));
    assert_eq!(edn_write(n), b"#inst 5".to_vec());
}

#[test]
fn hash_before_non_map_is_malformed() {
    assert!(matches!(edn_read(b"# 1"), Err(ReadError::Malformed(_))));
}

#[test]
fn discard_drops_a_collection_child() {
    assert_eq!(read("[1 #_ 2 3]"), Node::Vector(vec![num("1"), num("3")]));
    assert_eq!(read("[1 #_2 3]"), Node::Vector(vec![num("1"), num("3")]));
    assert_eq!(edn_write(read("[1 #_ 2 3]")), b"[1 3]".to_vec());
}

#[test]
fn top_level_discard_is_kept() {
    let n = read("#_ 5");
    assert_eq!(n, Node::Discard(Box::new(num("5"))));
    assert_eq!(edn_write(n), b"#_ 5".to_vec());
}

#[test]
fn dangling_discard_fails() {
    assert_eq!(edn_read(b"#_"), Err(ReadError::UnexpectedEof));
}

#[test]
fn comments_run_to_end_of_line() {
    assert_eq!(read("; a comment\n42"), num("42"));
    assert_eq!(read("[1 ; two\n2]"), Node::Vector(vec![num("1"), num("2")]));
    assert_eq!(read("abc; tail comment\n"), Node::Symbol(None, b"abc".to_vec()));
}

#[test]
fn strings_keep_escapes_raw() {
    let n = read("\"a\\\"b\"");
    assert_eq!(n, Node::String(b"a\\\"b".to_vec()));
    assert_eq!(edn_write(n), b"\"a\\\"b\"".to_vec());
}

#[test]
fn unterminated_string_fails() {
    assert_eq!(edn_read(b"\"abc"), Err(ReadError::UnexpectedEof));
}

#[test]
fn text_after_first_value_is_ignored() {
    assert_eq!(read("1 2"), num("1"));
}
