//! Concrete cases of the library's laws, one error of each kind, and exact
//! values of its spellings.

use kvd_rs::deserialize::from_str;
use kvd_rs::error::{Error, ErrorKind};
use kvd_rs::ops;
use kvd_rs::ops::{get, remove, remove_recursive, OpError, Path};
use kvd_rs::schema::{int_value, validate_schema, verify, verify_from_str, IntValue, VerifyError, Violation};
use kvd_rs::serialize::{quote_key, to_string};
use kvd_rs::value::{Mapping, Node, Shape};

fn one_pair(key: &str, value: Node) -> Node {
    let mut m = Mapping::new();
    m.insert(key.to_string(), value);
    Node::map(m)
}

fn read_back_text(doc: &Node, key: &str) -> String {
    let out = to_string(doc).expect("serializes");
    let back = from_str(&out).expect("reads back");
    back.as_map()
        .unwrap()
        .get(key)
        .unwrap()
        .as_scalar()
        .unwrap()
        .text
        .clone()
}

fn err_kind(text: &str) -> ErrorKind {
    from_str(text).expect_err("expected a parse error").kind
}

// ---- what the serializer writes on one line reads back ----

#[test]
fn law_string_values_read_back() {
    for s in [
        "plain",
        "",
        "with \"quotes\" and \\ backslash",
        "tab\there",
        "hash # inside",
        "control \u{1} and \u{7f}",
        "int",
        "map",
        "café ünïcode",
        "'single'",
    ] {
        let doc = one_pair("k", Node::scalar(Shape::Str, s));
        assert_eq!(read_back_text(&doc, "k"), s, "string {s:?}");
    }
}

#[test]
fn law_document_reads_back() {
    let mut inner = Mapping::new();
    inner.insert("host".to_string(), Node::scalar(Shape::Str, "a # b"));
    inner.insert("on".to_string(), Node::scalar(Shape::Bool, "true"));
    let mut deeper = Mapping::new();
    deeper.insert("nothing".to_string(), Node::scalar(Shape::Null, "null"));
    inner.insert("deeper".to_string(), Node::map(deeper));
    let mut m = Mapping::new();
    m.insert("app".to_string(), Node::map(inner));
    m.insert("two words".to_string(), Node::scalar(Shape::Str, "x"));
    m.insert("none".to_string(), Node::map(Mapping::new()));
    m.insert("empty".to_string(), Node::list(Vec::new()));
    m.insert("__schema__".to_string(), Node::scalar(Shape::Str, "str"));
    let mut item = Mapping::new();
    item.insert("name".to_string(), Node::scalar(Shape::Str, "n"));
    item.insert("tags".to_string(), Node::list(vec![Node::scalar(Shape::Bool, "false")]));
    let inner_list = Node::list(vec![
        Node::scalar(Shape::Null, "null"),
        Node::map(Mapping::new()),
        Node::scalar(Shape::Int, "-7"),
        Node::scalar(Shape::Float, "-1.5e3"),
    ]);
    m.insert("count".to_string(), Node::scalar(Shape::Int, "1_234"));
    m.insert("ratio".to_string(), Node::scalar(Shape::Float, "0.75"));
    m.insert(
        "items".to_string(),
        Node::list(vec![Node::scalar(Shape::Str, "s"), Node::map(item), inner_list, Node::list(Vec::new())]),
    );
    let doc = Node::map(m);
    let out = to_string(&doc).expect("serializes");
    assert_eq!(
        out,
        "app:\n  host: \"a # b\"\n  on: true\n  deeper:\n    nothing: null\n\"two words\": \"x\"\nnone: {}\nempty: []\n__schema__: str\ncount: 1_234\nratio: 0.75\nitems:\n  - \"s\"\n  - name: \"n\"\n    tags:\n      - false\n  -\n    - null\n    - {}\n    - -7\n    - -1.5e3\n  - []\n"
    );
    let back = from_str(&out).expect("reads back");
    assert_eq!(back, doc);
    assert_eq!(to_string(&back).unwrap(), out);
}

#[test]
fn law_block_strings_read_back() {
    let mut m = Mapping::new();
    m.insert("a".to_string(), Node::scalar(Shape::Str, "one\n  two\\x\n"));
    m.insert("b".to_string(), Node::scalar(Shape::Str, "x\n\ny"));
    m.insert(
        "c".to_string(),
        Node::list(vec![Node::scalar(Shape::Str, "p\nq\n"), Node::scalar(Shape::Str, "r\ns")]),
    );
    let doc = Node::map(m);
    let out = to_string(&doc).expect("serializes");
    assert_eq!(
        out,
        "a: \"\"\"\n  one\n    two\\\\x\n\"\"\"\nb: \"\"\"\n  x\n\n  y\"\"\"\nc:\n  - \"\"\"\n    p\n    q\n    \"\"\"\n  - \"\"\"\n    r\n    s\"\"\"\n"
    );
    let back = from_str(&out).expect("reads back");
    assert_eq!(back, doc);
    assert_eq!(to_string(&back).unwrap(), out);
}

#[test]
fn law_ints_read_back_grouped() {
    let mut m = Mapping::new();
    m.insert("n".to_string(), Node::scalar(Shape::Int, "1234"));
    m.insert("k".to_string(), Node::scalar(Shape::Int, "-12_345_678"));
    m.insert("z".to_string(), Node::scalar(Shape::Int, "+0"));
    let doc = Node::map(m);
    let out = to_string(&doc).expect("serializes");
    assert_eq!(out, "n: 1_234\nk: -12_345_678\nz: +0\n");
    let back = from_str(&out).expect("reads back");
    let n = back.as_map().unwrap().get("n").unwrap().as_scalar().unwrap();
    assert_eq!(n.text, "1_234");
    assert_eq!(n.shape, Shape::Int);
    assert_eq!(back, doc);
    assert_eq!(to_string(&back).unwrap(), out);
}

#[test]
fn law_block_blank_last_line_written_quoted() {
    let doc = one_pair("t", Node::scalar(Shape::Str, "a\n\t"));
    let out = to_string(&doc).expect("serializes");
    assert_eq!(out, "t: \"a\\n\\t\"\n");
    let back = from_str(&out).expect("reads back");
    assert_eq!(back, doc);
    assert_eq!(to_string(&back).unwrap(), out);
}

#[test]
fn non_ascii_int_digits_group_by_bytes() {
    let mut m = Mapping::new();
    m.insert("n".to_string(), Node::scalar(Shape::Int, "\u{ff11}\u{ff12}\u{ff13}\u{ff14}"));
    m.insert("m".to_string(), Node::scalar(Shape::Int, "1\u{e9}1"));
    m.insert("s".to_string(), Node::scalar(Shape::Int, "-\u{e9}1"));
    let out = to_string(&Node::map(m)).expect("serializes");
    assert_eq!(out, "n: \u{ff11}_\u{ff12}_\u{ff13}_\u{ff14}\nm: 1_\u{e9}1\ns: -\u{e9}1\n");
}

#[test]
fn law_string_spelling_exact() {
    let doc = one_pair("k", Node::scalar(Shape::Str, "a\u{1}b\"c"));
    assert_eq!(to_string(&doc).unwrap(), "k: \"a\\u0001b\\\"c\"\n");
    let doc = one_pair("k", Node::scalar(Shape::Str, "str"));
    assert_eq!(to_string(&doc).unwrap(), "k: str\n");
    let doc = one_pair("k", Node::scalar(Shape::Str, ""));
    assert_eq!(to_string(&doc).unwrap(), "k: \"\"\n");
}

#[test]
fn law_keys_read_back() {
    for k in ["plain", "with.dot", "with space", "-lead", "a:b", "__schema__", "ünï"] {
        let doc = one_pair(k, Node::scalar(Shape::Int, "1"));
        let out = to_string(&doc).unwrap();
        let back = from_str(&out).unwrap();
        let m = back.as_map().unwrap();
        assert_eq!(m.len(), 1, "key {k:?}");
        assert!(m.get(k).is_some(), "key {k:?} read back from {out:?}");
    }
}

#[test]
fn law_quote_key_exact() {
    assert_eq!(quote_key("a.b").unwrap(), "\"a.b\"");
    assert_eq!(quote_key("ab-c_d").unwrap(), "ab-c_d");
    assert_eq!(quote_key("__schema__").unwrap(), "__schema__");
    assert!(quote_key("").is_err());
}

#[test]
fn metakey_below_root_is_quoted() {
    // Bare, the known metakey is refused below the root; the writer
    // quotes it there, so it reads back as a plain key.
    let inner = one_pair("__schema__", Node::scalar(Shape::Int, "1"));
    let doc = one_pair("outer", inner);
    let out = to_string(&doc).unwrap();
    assert_eq!(out, "outer:\n  \"__schema__\": 1\n");
    assert_eq!(from_str(&out).unwrap(), doc);
    assert_eq!(err_kind("outer:\n  __schema__: 1\n"), ErrorKind::MetakeyOutsideRoot);
    let doc = one_pair("__schema__", Node::scalar(Shape::Str, "str"));
    assert_eq!(to_string(&doc).unwrap(), "__schema__: str\n");
}

// ---- a parsed document is written and reads back as itself ----

fn round_trips(text: &str) -> String {
    let doc = from_str(text).expect("parses");
    let s1 = to_string(&doc).expect("canonical serialize");
    let doc2 = from_str(&s1).expect("re-parse canonical form");
    let s2 = to_string(&doc2).expect("re-serialize canonical form");
    assert_eq!(s1, s2, "canonical form is not idempotent for {text:?}");
    assert_eq!(doc, doc2, "re-parsed document differs for {text:?}");
    s1
}

#[test]
fn law_parsed_ints_round_trip() {
    assert_eq!(round_trips("a: 1000\n"), "a: 1_000\n");
    assert_eq!(round_trips("a: -1234567\nb: 1_000\n"), "a: -1_234_567\nb: 1_000\n");
    let doc = from_str("a: 1000\n").unwrap();
    let back = from_str("a: 1_000\n").unwrap();
    assert_eq!(doc, back);
    assert_ne!(doc, from_str("a: 1001\n").unwrap());
    assert_eq!(doc.as_map().unwrap().get("a").unwrap().as_scalar().unwrap().text, "1000");
}

#[test]
fn law_parsed_indented_strings_round_trip() {
    // Every line starts with a space: as a block it would lose the indent.
    assert_eq!(round_trips("s: \" x\\n y\"\n"), "s: \" x\\n y\"\n");
    // A line that would close the block early.
    assert_eq!(round_trips("s: \"a\\\"\\\"\\\"\\nb\"\n"), "s: \"a\\\"\\\"\\\"\\nb\"\n");
    assert_eq!(round_trips("s: \"a\\nb\\\"\\\"\\\"\"\n"), "s: \"\"\"\n  a\n  b\"\"\"\"\"\"\n");
    // A block that reads back stays a block.
    assert_eq!(round_trips("s: \"a\\n  b\\n\"\n"), "s: \"\"\"\n  a\n    b\n\"\"\"\n");
    round_trips("l:\n  - \" x\\n y\"\n  - \"a\\n\\t\"\n");
}

#[test]
fn law_parsed_metakey_below_root_round_trips() {
    assert_eq!(round_trips("a:\n  \"__schema__\": 1\n"), "a:\n  \"__schema__\": 1\n");
    round_trips("__schema__:\n  x: int\nl:\n  - \"__schema__\": 2\n");
}

#[test]
fn law_parsed_document_round_trips() {
    round_trips("# c\napp:\n  name: \"hello\"\n  port: 8080\n  tags:\n    - a: 1\n      b: []\n    - - 2.5\n      - null\n    - \"\"\"\n      #!/bin/sh\n      echo hi\n      \"\"\"\n  x.y: true\n");
}

#[test]
fn list_nesting_past_the_limit_is_refused() {
    let mut t = String::from("l:\n");
    for i in 0..150 {
        t.push_str(&" ".repeat(2 + 2 * i));
        t.push_str("-\n");
    }
    t.push_str(&" ".repeat(2 + 2 * 150));
    t.push_str("- 1\n");
    assert_eq!(err_kind(&t), ErrorKind::DepthLimit);
    // Items at the last slot within the limit still parse and round-trip.
    let mut t = String::from("l:\n");
    for i in 0..98 {
        t.push_str(&" ".repeat(2 + 2 * i));
        t.push_str("-\n");
    }
    t.push_str(&" ".repeat(2 + 2 * 98));
    t.push_str("- 1\n");
    round_trips(&t);
}

#[test]
fn int_grouping_exact() {
    let doc = one_pair("n", Node::scalar(Shape::Int, "-1234567"));
    assert_eq!(to_string(&doc).unwrap(), "n: -1_234_567\n");
    let doc = one_pair("n", Node::scalar(Shape::Int, "12_34"));
    assert_eq!(to_string(&doc).unwrap(), "n: 1_234\n");
    let doc = one_pair("n", Node::scalar(Shape::Int, "999"));
    assert_eq!(to_string(&doc).unwrap(), "n: 999\n");
}

// ---- schema laws ----

#[test]
fn law_int_ranges_compare_by_value() {
    let schema = "n:\n  type: int\n  validation:\n    min: -99_999_999_999_999_999_999\n    max: 100_000_000_000_000_000_000\n";
    assert!(verify_from_str("n: 99_999_999_999_999_999_999\n", schema).is_ok());
    assert!(verify_from_str("n: -0\n", schema).is_ok());
    assert!(verify_from_str("n: -99_999_999_999_999_999_999\n", schema).is_ok());
    match verify_from_str("n: 100_000_000_000_000_000_001\n", schema) {
        Err(VerifyError::Violations(v)) => assert_eq!(v.len(), 1),
        other => panic!("expected one violation, got {other:?}"),
    }
    match verify_from_str("n: -100_000_000_000_000_000_000\n", schema) {
        Err(VerifyError::Violations(v)) => assert_eq!(v.len(), 1),
        other => panic!("expected one violation, got {other:?}"),
    }
}

#[test]
fn law_malformed_schema_ignores_document() {
    let s = from_str("p: port\nq: int\n").unwrap();
    let d1 = from_str("p: 1\nq: 2\n").unwrap();
    let d2 = from_str("other: \"x\"\n").unwrap();
    let expected = VerifyError::SchemaMalformed(vec![Violation::new("p", "unknown type `port`")]);
    assert_eq!(verify(&d1, &s).unwrap_err(), expected);
    assert_eq!(verify(&d2, &s).unwrap_err(), expected);
}

#[test]
fn law_null_needs_optional() {
    let req = "a:\n  type: str\n";
    let opt = "a:\n  type: str\n  optional: true\n";
    assert!(verify_from_str("a: null\n", opt).is_ok());
    assert_eq!(
        verify_from_str("a: null\n", req).unwrap_err(),
        VerifyError::Violations(vec![Violation::new(
            "a",
            "null requires an optional type (`optional: true`)"
        )])
    );
}

#[test]
fn law_absent_optional_key() {
    assert!(verify_from_str("b: 1\n", "a:\n  type: int\n  optional: true\nb: int\n").is_ok());
    assert_eq!(
        verify_from_str("b: 1\n", "a: int\nb: int\n").unwrap_err(),
        VerifyError::Violations(vec![Violation::new("a", "missing key")])
    );
}

#[test]
fn law_empty_literals_accept_any_contents() {
    assert!(verify_from_str("m:\n  x:\n    - 1\n", "m: {}\n").is_ok());
    assert!(verify_from_str("l:\n  - {}\n  - \"x\"\n", "l: []\n").is_ok());
    assert_eq!(
        verify_from_str("m:\n  - 1\n", "m: {}\n").unwrap_err(),
        VerifyError::Violations(vec![Violation::new("m", "expected a dict, found a list")])
    );
}

#[test]
fn pattern_is_compiled_and_matched() {
    let schema = "s:\n  type: str\n  validation:\n    pattern: \"[a-c]+\"\n";
    assert!(verify_from_str("s: \"abcab\"\n", schema).is_ok());
    // The pattern is anchored: a partial match is not enough.
    assert_eq!(
        verify_from_str("s: \"abd\"\n", schema).unwrap_err(),
        VerifyError::Violations(vec![Violation::new(
            "s",
            "value \"abd\" does not match pattern \"[a-c]+\""
        )])
    );
    let bad = "s:\n  type: str\n  validation:\n    pattern: \"(\"\n";
    assert!(matches!(
        verify_from_str("s: \"x\"\n", bad),
        Err(VerifyError::SchemaMalformed(_)) | Err(VerifyError::Violations(_))
    ));
}

#[test]
fn validate_schema_collects_with_paths() {
    let s = from_str("a:\n  b: nope\nl:\n  - int\n  - str\n").unwrap();
    let mut out = Vec::new();
    validate_schema(&s, "root", &mut out);
    assert_eq!(
        out,
        vec![
            Violation::new("root.a.b", "unknown type `nope`"),
            Violation::new("root.l", "schema list must declare exactly one element type, found 2"),
        ]
    );
}

#[test]
fn violation_and_verify_error_display_exact() {
    let e = VerifyError::Violations(vec![Violation::new("a", "x"), Violation::new("", "y")]);
    assert_eq!(e.to_string(), "a: x\ny\n");
    let e = VerifyError::ParseDoc(Error::new(ErrorKind::Tab, 2, 3, "tabs"));
    assert_eq!(e.to_string(), "document parse error: 2:3: tab: tabs");
}

// ---- document operations ----

fn ops_doc() -> Node {
    from_str("a:\n  b: \"x\"\nlist:\n  - 1\n  - 2\n").unwrap()
}

#[test]
fn law_get_after_set() {
    let mut d = ops_doc();
    let p = Path::parse("a.c.d").unwrap();
    ops::set(&mut d, &p, Node::scalar(Shape::Int, "7")).unwrap();
    assert_eq!(get(&d, &p).unwrap(), &Node::scalar(Shape::Int, "7"));
    let p = Path::parse("list[1]").unwrap();
    ops::set(&mut d, &p, Node::scalar(Shape::Bool, "true")).unwrap();
    assert_eq!(get(&d, &p).unwrap(), &Node::scalar(Shape::Bool, "true"));
}

#[test]
fn law_remove_returns_target_and_failure_changes_nothing() {
    let mut d = ops_doc();
    let p = Path::parse("a.b").unwrap();
    let target = get(&d, &p).unwrap().clone();
    assert_eq!(remove(&mut d, &p).unwrap(), Some(target));
    let before = d.clone();
    assert_eq!(remove(&mut d, &p).unwrap_err(), OpError::MissingKey("b".to_string()));
    assert_eq!(d, before);
    assert_eq!(
        remove_recursive(&mut d, &Path::parse("list[5]").unwrap()).unwrap_err(),
        OpError::IndexOutOfBounds(5)
    );
    assert_eq!(d, before);
}

#[test]
fn op_errors_of_each_kind() {
    let mut d = ops_doc();
    assert!(matches!(Path::parse("a..b"), Err(OpError::BadPath(_))));
    assert_eq!(
        ops::set(&mut d, &Path::parse("a.b.c").unwrap(), Node::scalar(Shape::Int, "1")).unwrap_err(),
        OpError::NotAMap
    );
    assert_eq!(
        ops::set(&mut d, &Path::parse("a[0]").unwrap(), Node::scalar(Shape::Int, "1")).unwrap_err(),
        OpError::NotAList
    );
    assert_eq!(OpError::IndexOutOfBounds(3).to_string(), "index out of bounds: 3");
    assert_eq!(OpError::MissingKey("k".to_string()).to_string(), "missing key `k`");
}

// ---- parse errors of each kind ----

#[test]
fn parse_errors_of_each_kind() {
    assert_eq!(err_kind("a:\n   b: 1"), ErrorKind::BadIndent);
    assert_eq!(err_kind("a:\tb"), ErrorKind::Tab);
    assert_eq!(err_kind("- 1"), ErrorKind::BadListMarker);
    assert_eq!(err_kind("l:\n  - a: 1\n      b: 2\n"), ErrorKind::MisalignedKey);
    assert_eq!(err_kind("a:"), ErrorKind::MissingValue);
    assert_eq!(err_kind("a: 1\na: 2"), ErrorKind::DuplicateKey);
    assert_eq!(err_kind("a: 1\na.b: 2"), ErrorKind::LeafInteriorConflict);
    assert_eq!(err_kind("a..b: 1"), ErrorKind::BadPath);
    assert_eq!(err_kind("a: \"x"), ErrorKind::Unterminated);
    assert_eq!(err_kind("__nope__: 1"), ErrorKind::UnknownMetakey);
    assert_eq!(err_kind("a:\n  __schema__: 1"), ErrorKind::MetakeyOutsideRoot);
    assert_eq!(err_kind("a: x=y"), ErrorKind::UnexpectedCharacter);
    let doc = from_str("a: 1\n").unwrap();
    assert_eq!(doc.get("zz").unwrap_err().kind, ErrorKind::KeyNotFound);
    assert_eq!(doc.get("a").unwrap().get("b").unwrap_err().kind, ErrorKind::NotAMap);
}

#[test]
fn parse_error_positions_exact() {
    let e = from_str("a: 1\nb: \"\\q\"\n").unwrap_err();
    assert_eq!((e.kind, e.line, e.col), (ErrorKind::UnexpectedCharacter, 2, 6));
    assert_eq!(e.to_string(), "2:6: unexpected-character: invalid escape `\\q`");
}

#[test]
fn unicode_escapes_decode() {
    let d = from_str("a: \"caf\\u00e9 \\u0041\"\n").unwrap();
    assert_eq!(d.get("a").unwrap().as_scalar().unwrap().text, "café A");
    assert_eq!(err_kind("a: \"\\ud800\"\n"), ErrorKind::UnexpectedCharacter);
}

#[test]
fn blank_document_is_empty_map() {
    let d = from_str("\n   \n# c\n").unwrap();
    assert_eq!(d, Node::map(Mapping::new()));
}

#[test]
fn int_value_reads_i64_then_u64() {
    assert_eq!(int_value("1_000"), IntValue::Signed(1000));
    assert_eq!(int_value("-9_223_372_036_854_775_808"), IntValue::Signed(i64::MIN));
    assert_eq!(int_value("+12"), IntValue::Signed(12));
    assert_eq!(int_value("18_446_744_073_709_551_615"), IntValue::Unsigned(u64::MAX));
    assert_eq!(int_value("18446744073709551616"), IntValue::OutOfRange);
    assert_eq!(int_value("-9223372036854775809"), IntValue::OutOfRange);
}

#[test]
fn parsed_path_is_never_the_root() {
    assert!(!Path::parse("a").unwrap().is_empty());
    assert!(!Path::parse("a[0].b").unwrap().is_empty());
    assert!(Path::parse("").is_err());
}

#[test]
fn writable_spots_unspellable_ints() {
    let doc = one_pair("n", Node::scalar(Shape::Int, "1234"));
    assert!(kvd_rs::serialize::writable(&doc));
    assert!(kvd_rs::serialize::int_spellable("\u{ff11}\u{ff12}\u{ff13}\u{ff14}"));
    assert!(kvd_rs::serialize::int_spellable("1\u{e9}1"));
    // Four bytes, the first character two of them: the cut after one byte
    // would fall inside it.
    assert!(!kvd_rs::serialize::int_spellable("\u{e9}11"));
    assert!(kvd_rs::serialize::int_spellable("\u{e9}\u{e9}1"));
    let doc = one_pair("n", Node::scalar(Shape::Int, "\u{e9}11"));
    assert!(!kvd_rs::serialize::writable(&doc));
}

#[test]
fn schema_type_names_stay_bare() {
    let text = "cfg:\n  type: dict\n";
    let s = from_str(text).unwrap();
    assert_eq!(to_string(&s).unwrap(), text);
    let s2 = from_str(&to_string(&s).unwrap()).unwrap();
    assert_eq!(s2, s);
    let data = from_str("cfg:\n  x: 1\n").unwrap();
    assert!(verify(&data, &s).is_ok());
    assert!(verify(&data, &s2).is_ok());
    let doc = one_pair("k", Node::scalar(Shape::Str, "dict"));
    assert_eq!(to_string(&doc).unwrap(), "k: dict\n");
    assert_eq!(from_str("k: dict\n").unwrap(), doc);
}

#[test]
fn law_written_text_reads_back() {
    // A null's text is written as `null`, whatever it holds.
    let doc = one_pair("k", Node::scalar(Shape::Null, "nothing"));
    let out = to_string(&doc).unwrap();
    assert_eq!(out, "k: null\n");
    let back = from_str(&out).unwrap();
    assert_eq!(back.as_map().unwrap().get("k").unwrap().as_scalar().unwrap().text, "null");
}

fn nested_lists(item: Node, wraps: usize) -> Node {
    let mut n = Node::list(vec![item]);
    for _ in 0..wraps {
        n = Node::list(vec![n]);
    }
    one_pair("l", n)
}

#[test]
fn map_items_count_toward_the_depth_limit() {
    // Items of the innermost list sit at slot 100; a map item's keys would
    // sit at slot 101, which the reader refuses, so the writer does too.
    let doc = nested_lists(one_pair("a", Node::scalar(Shape::Int, "1")), 98);
    assert!(to_string(&doc).is_err());
    let doc = nested_lists(Node::scalar(Shape::Int, "1"), 98);
    let out = to_string(&doc).unwrap();
    assert_eq!(from_str(&out).unwrap(), doc);
    let doc = nested_lists(one_pair("a", Node::scalar(Shape::Int, "1")), 97);
    let out = to_string(&doc).unwrap();
    assert_eq!(from_str(&out).unwrap(), doc);
}

#[test]
fn int_readers_follow_from_str() {
    assert_eq!(kvd_rs::schema::int_i64("-1_000"), Some(-1000));
    assert_eq!(kvd_rs::schema::int_i64("9_223_372_036_854_775_808"), None);
    assert_eq!(kvd_rs::schema::int_u64("+9_223_372_036_854_775_808"), Some(9_223_372_036_854_775_808));
    assert_eq!(kvd_rs::schema::int_u64("-0"), None);
    assert_eq!(kvd_rs::schema::int_u64("18446744073709551616"), None);
}

#[test]
fn get_path_str_is_get_path_on_the_split() {
    let root = from_str("app:\n  port: 8080\n").unwrap();
    assert_eq!(root.get_path_str("app.port").unwrap(), root.get_path(&["app", "port"]).unwrap());
    let a = root.get_path_str("app..port").unwrap_err();
    let b = root.get_path(&["app", "", "port"]).unwrap_err();
    assert_eq!(a.kind, b.kind);
    assert_eq!(a.to_string(), b.to_string());
}
