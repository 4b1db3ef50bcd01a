use kvd_rs::grammar::looks_like_number;
use kvd_rs::serialize::{quote_key, to_string};
use kvd_rs::value::{Mapping, Node, Shape};

fn doc(pairs: &[(&str, Node)]) -> Node {
    let mut m = Mapping::new();
    for (k, v) in pairs {
        m.insert((*k).to_string(), v.clone());
    }
    Node::map(m)
}

fn scalar(shape: Shape, text: &str) -> Node {
    Node::scalar(shape, text)
}

fn block(text: &str) -> Node {
    Node::scalar(Shape::Str, text)
}

#[test]
fn scalar_spellings() {
    let d = doc(&[
        ("i", scalar(Shape::Int, "42")),
        ("f", scalar(Shape::Float, "0.75")),
        ("b", scalar(Shape::Bool, "true")),
        ("s", scalar(Shape::Str, "hello")),
    ]);
    // "hello" is not a builtin type name, so double-quoted
    assert_eq!(
        to_string(&d).unwrap(),
        "i: 42\nf: 0.75\nb: true\ns: \"hello\"\n"
    );
}

#[test]
fn strings_that_look_like_shapes_are_quoted() {
    let d = doc(&[
        ("n", scalar(Shape::Str, "42")),
        ("neg", scalar(Shape::Str, "-5")),
        ("plus", scalar(Shape::Str, "+5")),
        ("sep", scalar(Shape::Str, "1_000")),
        ("t", scalar(Shape::Str, "true")),
        ("f", scalar(Shape::Str, "false")),
        ("empty", scalar(Shape::Str, "")),
    ]);
    assert_eq!(
        to_string(&d).unwrap(),
        "n: \"42\"\nneg: \"-5\"\nplus: \"+5\"\nsep: \"1_000\"\nt: \"true\"\nf: \"false\"\nempty: \"\"\n"
    );
}

#[test]
fn strings_are_always_quoted() {
    let d = doc(&[
        ("w", scalar(Shape::Str, "5foo")),
        ("neg", scalar(Shape::Str, "-foo")),
        ("plus", scalar(Shape::Str, "+foo")),
        ("date", scalar(Shape::Str, "2026-08-20")),
        ("under", scalar(Shape::Str, "_x")),
    ]);
    assert_eq!(
        to_string(&d).unwrap(),
        "w: \"5foo\"\nneg: \"-foo\"\nplus: \"+foo\"\ndate: \"2026-08-20\"\nunder: \"_x\"\n"
    );
}

#[test]
fn non_words_are_quoted_with_escapes() {
    let d = doc(&[
        ("sp", scalar(Shape::Str, "hello world")),
        ("hash", scalar(Shape::Str, "a#b")),
        ("quote", scalar(Shape::Str, "say \"hi\"")),
        ("back", scalar(Shape::Str, "a\\b")),
        ("tab", scalar(Shape::Str, "a\tb")),
        ("ctrl", scalar(Shape::Str, "a\u{1}b")),
    ]);
    assert_eq!(
        to_string(&d).unwrap(),
        "sp: \"hello world\"\nhash: \"a#b\"\nquote: \"say \\\"hi\\\"\"\nback: \"a\\\\b\"\ntab: \"a\\tb\"\nctrl: \"a\\u0001b\"\n"
    );
}

#[test]
fn extended_strings_are_quoted() {
    // Path-like, dotted, URL-ish, and version-like strings are quoted
    // under mandatory double-quoting.
    let d = doc(&[
        ("health", scalar(Shape::Str, "/health")),
        ("path", scalar(Shape::Str, "a/b/c")),
        ("dotted", scalar(Shape::Str, "foo.bar")),
        ("version", scalar(Shape::Str, "1.5.2")),
        ("url", scalar(Shape::Str, "http://x")),
        ("time", scalar(Shape::Str, "10:30")),
        ("cron", scalar(Shape::Str, "@daily")),
        ("dotfile", scalar(Shape::Str, ".env")),
        // `=` and `&` are not word characters: full query strings stay
        // quoted.
        ("q", scalar(Shape::Str, "http://x?a=1")),
    ]);
    assert_eq!(
        to_string(&d).unwrap(),
        "health: \"/health\"\npath: \"a/b/c\"\ndotted: \"foo.bar\"\nversion: \"1.5.2\"\nurl: \"http://x\"\ntime: \"10:30\"\ncron: \"@daily\"\ndotfile: \".env\"\nq: \"http://x?a=1\"\n"
    );
}

#[test]
fn null_round_trips() {
    let d = doc(&[("x", scalar(Shape::Null, "null"))]);
    assert_eq!(to_string(&d).unwrap(), "x: null\n");
    let parsed = kvd_rs::deserialize::from_str("x: null").unwrap();
    match parsed.as_map().expect("map").get("x") {
        Some(Node::Scalar(s)) => assert_eq!(s.shape, Shape::Null),
        other => panic!("expected null scalar, got {other:?}"),
    }
    // "nullish" is not a builtin type name, so double-quoted
    assert_eq!(
        to_string(&doc(&[("w", scalar(Shape::Str, "nullish"))])).unwrap(),
        "w: \"nullish\"\n"
    );
}

#[test]
fn nested_map_and_list() {
    let d = doc(&[(
        "a",
        Node::map({
            let mut m = Mapping::new();
            m.insert(
                "b".into(),
                Node::list(vec![scalar(Shape::Int, "1"), scalar(Shape::Str, "x")]),
            );
            m
        }),
    )]);
    assert_eq!(to_string(&d).unwrap(), "a:\n  b:\n    - 1\n    - \"x\"\n");
}

#[test]
fn empty_collections_are_literals() {
    let d = doc(&[
        ("m", Node::map(Mapping::new())),
        ("l", Node::list(vec![])),
        (
            "lm",
            Node::list(vec![Node::map(Mapping::new()), Node::list(vec![])]),
        ),
    ]);
    assert_eq!(
        to_string(&d).unwrap(),
        "m: {}\nl: []\nlm:\n  - {}\n  - []\n"
    );
}

#[test]
fn list_item_mapping_inlines_first_key() {
    let mut inner = Mapping::new();
    inner.insert("x".into(), scalar(Shape::Int, "1"));
    inner.insert("y".into(), scalar(Shape::Int, "2"));
    let d = doc(&[("l", Node::list(vec![Node::map(inner)]))]);
    assert_eq!(to_string(&d).unwrap(), "l:\n  - x: 1\n    y: 2\n");
}

#[test]
fn nested_list_uses_bare_dash() {
    let d = doc(&[(
        "l",
        Node::list(vec![Node::list(vec![scalar(Shape::Int, "1")])]),
    )]);
    assert_eq!(to_string(&d).unwrap(), "l:\n  -\n    - 1\n");
}

#[test]
fn serialize_triple_keep_and_strip() {
    // Trailing \n → standalone closer; no trailing \n → inline closer.
    let d = doc(&[
        ("keep", block("line1\nline2\n")),
        ("strip", block("line1\nline2")),
    ]);
    assert_eq!(
        to_string(&d).unwrap(),
        "keep: \"\"\"\n  line1\n  line2\n\"\"\"\nstrip: \"\"\"\n  line1\n  line2\"\"\"\n"
    );
}

#[test]
fn serialize_triple_in_list_item() {
    let d = doc(&[("l", Node::list(vec![block("a\nb")]))]);
    assert_eq!(
        to_string(&d).unwrap(),
        "l:\n  - \"\"\"\n    a\n    b\"\"\"\n"
    );
    // Round-trips through the parser byte-for-byte.
    let text = to_string(&d).unwrap();
    let reparsed = kvd_rs::deserialize::from_str(&text).unwrap();
    assert_eq!(to_string(&reparsed).unwrap(), text);
}

#[test]
fn empty_triple_in_list_item() {
    for text in ["", "\n", "a\nb", "a\nb\n"] {
        let d = doc(&[("l", Node::list(vec![block(text)]))]);
        let out = to_string(&d).unwrap();
        let reparsed = kvd_rs::deserialize::from_str(&out).unwrap();
        assert_eq!(
            to_string(&reparsed).unwrap(),
            out,
            "round-trip failed for {text:?}"
        );
        assert_eq!(
            reparsed
                .as_map()
                .unwrap()
                .get("l")
                .unwrap()
                .as_list()
                .unwrap()[0]
                .as_scalar()
                .unwrap()
                .text,
            text
        );
    }
}

#[test]
fn non_bare_keys_are_quoted() {
    // Keys that aren't valid bare keys are emitted double-quoted,
    // so they round-trip instead of erroring.
    let out = to_string(&doc(&[("-foo", scalar(Shape::Int, "1"))])).unwrap();
    assert!(out.contains("\"-foo\": 1"));
    let out2 = to_string(&doc(&[("a.b", scalar(Shape::Int, "1"))])).unwrap();
    assert!(out2.contains("\"a.b\": 1"));
    // Valid bare keys stay unquoted.
    assert!(to_string(&doc(&[("8080", scalar(Shape::Int, "1"))])).is_ok());
    assert!(to_string(&doc(&[("2fa", scalar(Shape::Int, "1"))])).is_ok());
    // Empty keys are still rejected.
    assert!(to_string(&doc(&[("", scalar(Shape::Int, "1"))])).is_err());
}

#[test]
fn root_must_be_a_mapping() {
    assert!(to_string(&Node::list(vec![])).is_err());
    assert!(to_string(&scalar(Shape::Int, "1")).is_err());
}

#[test]
fn number_literal_recognition() {
    assert!(looks_like_number("42"));
    assert!(looks_like_number("-5"));
    assert!(looks_like_number("+5"));
    assert!(looks_like_number("1_000"));
    assert!(looks_like_number("45_678_112"));
    assert!(looks_like_number("0.5"));
    assert!(looks_like_number("-5.5"));
    assert!(looks_like_number("1e3"));
    assert!(looks_like_number("0.5e-3"));
    assert!(!looks_like_number("1_2"));
    assert!(!looks_like_number("1_2345"));
    assert!(!looks_like_number("1234_567"));
    assert!(!looks_like_number("5foo"));
    assert!(!looks_like_number("2026-08-20"));
    assert!(!looks_like_number("1.5.5"));
    assert!(!looks_like_number(".5"));
    assert!(!looks_like_number("1."));
    assert!(!looks_like_number("1e"));
}

fn deep_chain(levels: usize) -> Node {
    let mut node = scalar(Shape::Int, "0");
    for i in 0..levels {
        node = doc(&[(&format!("k{i}"), node)]);
    }
    node
}

#[test]
fn err_nesting_beyond_max_depth() {
    // Programmatically-built trees deeper than MAX_DEPTH are refused:
    // the serializer only emits nesting, so the output would
    // not parse back.
    let err = to_string(&deep_chain(kvd_rs::MAX_DEPTH + 5)).unwrap_err();
    assert!(err.to_string().contains("maximum depth"));
}

#[test]
fn max_depth_chain_round_trips() {
    let node = deep_chain(100); // slots 1..=100, exactly at the limit
    let out = to_string(&node).unwrap();
    assert_eq!(kvd_rs::deserialize::from_str(&out).unwrap(), node);
}

#[test]
fn quote_key_quotes_non_bare() {
    assert_eq!(
        quote_key("app.kubernetes.io/name").unwrap(),
        "\"app.kubernetes.io/name\""
    );
}

#[test]
fn quote_key_keeps_bare() {
    assert_eq!(quote_key("name").unwrap(), "name");
}

#[test]
fn quote_key_quotes_metakey_like_literal() {
    // An unknown metakey-looking key is quoted (literal), not errored.
    assert_eq!(quote_key("__foo__").unwrap(), "\"__foo__\"");
}

#[test]
fn known_metakey_round_trips() {
    // Known metakeys (e.g. __schema__) are bare and round-trip verbatim.
    let schema = kvd_rs::deserialize::from_str("__schema__:\n  a: int\n").unwrap();
    let out = to_string(&schema).unwrap();
    assert_eq!(out, "__schema__:\n  a: int\n");
}
