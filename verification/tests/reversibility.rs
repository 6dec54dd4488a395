use edn::{edn_read, edn_write};

/// Every syntactically valid canonical text here must read successfully,
/// and re-serializing what was read must give back the text byte for byte.
#[test]
fn is_reversible() {
    let corpus: Vec<&str> = vec![
        "nil",
        "42",
        "-42",
        "+7N",
        "4N",
        "1.23M",
        ".23E+1",
        ".23E-1",
        "-0.5",
        "12.34E-56M",
        ":kw",
        ":ns/kw",
        "sym",
        "ns/name",
        "/",
        "\"\"",
        "\"LONG STRING\"",
        "\"a\\\"b\"",
        "()",
        "[]",
        "{}",
        "#{}",
        "(1 2 3)",
        "[:ns/kw \"LONG STRING\" :a \"\" (1 2 3)]",
        "{:a 1 :b [2 3]}",
        "#{1 [2] (3)}",
        "#inst 5",
        "#_ 5",
        "(nil [nil] {nil nil})",
    ];
    for s in corpus {
        let parsed = edn_read(s.as_bytes());
        println!("parsing {} to {:?}", s, parsed);
        assert!(parsed.is_ok());
        assert_eq!(edn_write(parsed.unwrap()), s.as_bytes().to_vec());
    }
}

/// Re-serialization is idempotent: writing, reading and writing again
/// changes nothing, including on non-canonical separators.
#[test]
fn write_read_write_is_stable() {
    let corpus: Vec<&str> = vec!["[1,    2,3]", "; note\n(1 2)", "#_2", "{ :a\t1 }"];
    for s in corpus {
        let once = edn_write(edn_read(s.as_bytes()).unwrap());
        let twice = edn_write(edn_read(&once).unwrap());
        assert_eq!(once, twice);
    }
}
