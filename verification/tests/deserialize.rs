use kvd_rs::deserialize::from_str;
use kvd_rs::error::Error;
use kvd_rs::error::ErrorKind::{
    BadIndent, BadListMarker, DepthLimit, DuplicateKey, LeafInteriorConflict, MetakeyOutsideRoot,
    MissingValue, Tab, UnexpectedCharacter, UnknownMetakey, Unterminated,
};
use kvd_rs::serialize;
use kvd_rs::value::{Mapping, Node, Shape};

fn doc(text: &str) -> Mapping {
    match from_str(text).expect("parse") {
        Node::Mapping(m) => m,
        other => panic!("expected map, got {other:?}"),
    }
}

fn err(text: &str) -> Error {
    from_str(text).expect_err("expected error")
}

fn scalar_text(text: &str, path: &str) -> String {
    let mut segs = path.split('.').peekable();
    let mut cur = doc(text).get(segs.next().unwrap()).expect("key").clone();
    for seg in segs {
        cur = cur.as_map().expect("map").get(seg).expect("key").clone();
    }
    cur.as_scalar().expect("scalar").text.clone()
}

fn shape_of(text: &str, path: &str) -> Shape {
    let mut segs = path.split('.').peekable();
    let mut cur = doc(text).get(segs.next().unwrap()).expect("key").clone();
    for seg in segs {
        cur = cur.as_map().expect("map").get(seg).expect("key").clone();
    }
    cur.as_scalar().expect("scalar").shape
}

// ---- scalars ----

#[test]
fn scalars_and_shapes() {
    let t = "\
a: 1
b: -5
c: +7
d: 1_234_567
e: 3.14
f: -0.5
g: true
h: false
i: \"hello\"
j: \"+foo\"
k: \"-foo2\"
l: \"quoted: value\"
m: \"single # quoted\"
o: {}
p: []";
    assert_eq!(shape_of(t, "a"), Shape::Int);
    assert_eq!(scalar_text(t, "b"), "-5");
    assert_eq!(shape_of(t, "c"), Shape::Int);
    assert_eq!(scalar_text(t, "d"), "1_234_567");
    assert_eq!(shape_of(t, "e"), Shape::Float);
    assert_eq!(shape_of(t, "f"), Shape::Float);
    assert_eq!(shape_of(t, "g"), Shape::Bool);
    assert_eq!(shape_of(t, "h"), Shape::Bool);
    assert_eq!(shape_of(t, "i"), Shape::Str);
    assert_eq!(scalar_text(t, "j"), "+foo");
    assert_eq!(scalar_text(t, "k"), "-foo2");
    assert_eq!(scalar_text(t, "l"), "quoted: value");
    assert_eq!(scalar_text(t, "m"), "single # quoted");
    assert!(doc(t).get("o").unwrap().as_map().unwrap().is_empty());
    assert!(doc(t).get("p").unwrap().as_list().unwrap().is_empty());
}

#[test]
fn digit_start_non_numbers_are_errors() {
    // Not valid numbers (strict thousands groups) and not bare words:
    // under mandatory double-quoting these are parse errors.
    for v in ["1_2", "12_34_5", "5foo", "2026-08-20"] {
        assert_eq!(err(format!("a: {v}").as_str()).kind, UnexpectedCharacter);
    }
}

#[test]
fn dquote_escapes() {
    let t = r#"a: "x\ny\tz\\q\"r's""#;
    assert_eq!(scalar_text(t, "a"), "x\ny\tz\\q\"r's");
}

#[test]
fn unicode_escape() {
    let t = r#"a: "café""#;
    assert_eq!(scalar_text(t, "a"), "café");
}

#[test]
fn comments_stripped() {
    let t = "\
# leading comment
a: 1 # trailing
# another
b: \"has # inside\" # ok";
    assert_eq!(scalar_text(t, "a"), "1");
    assert_eq!(scalar_text(t, "b"), "has # inside");
}

// ---- structure ----

#[test]
fn empty_document() {
    assert!(doc("").is_empty());
    assert!(doc("\n# only comments\n\n").is_empty());
}

#[test]
fn dotted_paths_nest() {
    let t = "a.b.c: 1\na.b.d: 2\na.e: 3";
    let m = doc(t);
    assert_eq!(m.len(), 1);
    assert_eq!(scalar_text(t, "a.b.c"), "1");
    assert_eq!(scalar_text(t, "a.b.d"), "2");
    assert_eq!(scalar_text(t, "a.e"), "3");
}

#[test]
fn indented_subtree() {
    let t = "\
outer:
  inner: 1
  deep:
    leaf: \"two\"
other: 3";
    assert_eq!(scalar_text(t, "outer.inner"), "1");
    assert_eq!(scalar_text(t, "outer.deep.leaf"), "two");
    assert_eq!(scalar_text(t, "other"), "3");
}

#[test]
fn digit_start_keys() {
    let t = "8080: \"http\"\n2fa.enabled: true";
    assert_eq!(scalar_text(t, "8080"), "http");
    assert_eq!(shape_of(t, "2fa.enabled"), Shape::Bool);
}

#[test]
fn quoted_keys_parse() {
    // Quoted keys are valid and may contain spaces/dots.
    let d = from_str("\"weird key\": 1").unwrap();
    assert_eq!(
        d.as_map()
            .unwrap()
            .get("weird key")
            .unwrap()
            .as_scalar()
            .unwrap()
            .text,
        "1"
    );
    let d2 = from_str("\"a.b\": 2").unwrap();
    assert_eq!(
        d2.as_map()
            .unwrap()
            .get("a.b")
            .unwrap()
            .as_scalar()
            .unwrap()
            .text,
        "2"
    );
}

#[test]
fn metakeys_at_root() {
    let t = "__schema__:\n  db.port: int";
    assert_eq!(scalar_text(t, "__schema__.db.port"), "int");
}

// ---- lists ----

#[test]
fn list_of_scalars() {
    let t = "l:\n  - \"a\"\n  - 2\n  - true\n  - -3.5";
    let items = doc(t).get("l").unwrap().as_list().unwrap().to_vec();
    assert_eq!(items.len(), 4);
    assert_eq!(items[0].as_scalar().unwrap().text, "a");
    assert_eq!(items[1].as_scalar().unwrap().text, "2");
    assert_eq!(items[3].as_scalar().unwrap().text, "-3.5");
}

#[test]
fn list_empty_literals() {
    let t = "l:\n  - {}\n  - []\n  - \"x\"";
    let items = doc(t).get("l").unwrap().as_list().unwrap().to_vec();
    assert!(items[0].as_map().unwrap().is_empty());
    assert!(items[1].as_list().unwrap().is_empty());
    assert_eq!(items[2].as_scalar().unwrap().text, "x");
}

#[test]
fn nested_list_bare_marker() {
    let t = "l:\n  -\n    - \"a\"\n    - \"b\"\n  -\n    - \"c\"";
    let items = doc(t).get("l").unwrap().as_list().unwrap().to_vec();
    assert_eq!(items.len(), 2);
    let first = items[0].as_list().unwrap();
    assert_eq!(first.len(), 2);
    assert_eq!(first[1].as_scalar().unwrap().text, "b");
}

#[test]
fn nested_list_compact() {
    let t = "l:\n  - - \"a\"\n    - \"b\"\n  - - \"c\"";
    let items = doc(t).get("l").unwrap().as_list().unwrap().to_vec();
    assert_eq!(items.len(), 2);
    assert_eq!(
        items[0].as_list().unwrap()[1].as_scalar().unwrap().text,
        "b"
    );
    assert_eq!(
        items[1].as_list().unwrap()[0].as_scalar().unwrap().text,
        "c"
    );
}

#[test]
fn list_of_mappings() {
    let t = "\
servers:
  - name: \"one\"
    port: 80
  - name: \"two\"
    port: 443
    tls:
      enabled: true";
    let items = doc(t).get("servers").unwrap().as_list().unwrap().to_vec();
    assert_eq!(items.len(), 2);
    let second = items[1].as_map().unwrap();
    assert_eq!(
        second
            .get("tls")
            .unwrap()
            .as_map()
            .unwrap()
            .get("enabled")
            .unwrap(),
        &Node::scalar(Shape::Bool, "true")
    );
}

#[test]
fn dashed_strings_in_list_items() {
    // A leading `-` is a list marker at line start, but inside a quoted
    // string it is just content.
    let t = "args:\n  - \"-c\"\n  - \"--flag\"\n  - \"-v2\"";
    let items = doc(t).get("args").unwrap().as_list().unwrap().to_vec();
    assert_eq!(items[0].as_scalar().unwrap().text, "-c");
    assert_eq!(items[1].as_scalar().unwrap().text, "--flag");
    assert_eq!(items[2].as_scalar().unwrap().text, "-v2");
}

// ---- triple-quoted strings ----

#[test]
fn deserialize_triple_keep_and_strip() {
    // Standalone closer ("""  on its own line): trailing \n is added.
    // Inline closer (""" appended to last content line): no trailing \n.
    let t = "\
a: \"\"\"
  line one
  line two
\"\"\"
b: \"\"\"
  no newline\"\"\"
";
    assert_eq!(scalar_text(t, "a"), "line one\nline two\n");
    assert_eq!(scalar_text(t, "b"), "no newline");
}

#[test]
fn triple_common_indent_stripped() {
    // Standalone closer adds trailing \n.
    let t = "script: \"\"\"\n  if true;\n    nested;\n\"\"\"";
    assert_eq!(scalar_text(t, "script"), "if true;\n  nested;\n");
}

// ---- round-trip ----

#[test]
fn round_trip_canonical() {
    let cases = [
        "a: 1\n",
        "a:\n  b: \"hello world\"\n",
        "a:\n  b:\n    c: true\n",
        "l:\n  - 1\n  - {}\n  - []\n",
        "l:\n  -\n    - \"a\"\n    - \"b\"\n",
        "s:\n  - k: \"v\"\n    n: 2\n",
        "a: \"\"\"\n  keep\n  me\n\"\"\"\n",
        "a: \"\"\"\n  line a\n  line b\n\"\"\"\n",
        "o: {}\np: []\n",
        "big: 1_234_567\nneg: -12.5\nplus: +9\nw: \"-foo\"\n",
    ];
    for text in cases {
        let node = from_str(text).expect("parse");
        let out = kvd_rs::serialize::to_string(&node).expect("serialize");
        assert_eq!(out, text, "round-trip failed for {text:?}");
    }
}

#[test]
fn reparse_stability() {
    let node = from_str("a:\n  b:\n    - \"x\"\n    - y: 2\n").expect("parse");
    let out = kvd_rs::serialize::to_string(&node).expect("serialize");
    assert_eq!(from_str(&out).expect("re-parse"), node);
}

// ---- errors ----

#[test]
fn err_duplicate_key() {
    let e = err("a: 1\na: 2");
    assert_eq!(e.kind, DuplicateKey);
    assert_eq!(e.line, 2);
}

#[test]
fn err_leaf_interior_conflict() {
    let e = err("a: 1\na.b: 2");
    assert_eq!(e.kind, LeafInteriorConflict);
}

#[test]
fn err_missing_value() {
    let e = err("a: 1\nb:");
    assert_eq!(e.kind, MissingValue);
    assert_eq!(e.line, 2);
}

#[test]
fn err_bad_subtree_indent() {
    let e = err("a:\n   b: 1");
    assert_eq!(e.kind, BadIndent);
}

#[test]
fn err_top_level_indent() {
    let e = err("a: 1\n  b: 2");
    assert_eq!(e.kind, BadIndent);
}

#[test]
fn err_tab() {
    let e = err("a:\tx");
    assert_eq!(e.kind, Tab);
}

#[test]
fn err_unterminated_string() {
    assert_eq!(err("a: \"oops").kind, Unterminated);
    // A triple-quoted string missing its closer is unterminated too.
    assert_eq!(err("a: \"\"\"").kind, Unterminated);
}

#[test]
fn err_invalid_value_token() {
    assert_eq!(err("a: -").kind, UnexpectedCharacter);
    assert_eq!(err("a: --flag").kind, UnexpectedCharacter);
    // A colon must be followed by a word character.
    assert_eq!(err("a: x:").kind, UnexpectedCharacter);
    assert_eq!(err("a: x: y").kind, UnexpectedCharacter);
    // `=` is not a word character.
    assert_eq!(err("a: x=y").kind, UnexpectedCharacter);
}

#[test]
fn extended_words_are_errors() {
    // Bare words are no longer valid string values: under mandatory
    // double-quoting these are parse errors.
    for v in [
        "/health", "a/b/c", "foo.bar", "1.5.2", "http://x", "10:30", "@daily", "-5foo",
    ] {
        assert_eq!(
            err(format!("k: {v}").as_str()).kind,
            UnexpectedCharacter,
            "`{v}` should be an error without quotes"
        );
    }
}

#[test]
fn builtin_type_names_bare_in_value_position() {
    // The four builtin type names may appear bare; they are meaningful
    // only in schema position.
    for v in ["int", "float", "bool", "str"] {
        assert_eq!(scalar_text(&format!("k: {v}"), "k"), v);
    }
}

#[test]
fn null_literal_parses() {
    match doc("k: null\n").get("k") {
        Some(Node::Scalar(s)) => {
            assert_eq!(s.shape, Shape::Null);
            assert_eq!(s.text, "null");
        }
        other => panic!("expected null scalar, got {other:?}"),
    }
    // Keyword-exact: near-misses must be quoted. `Null` starts uppercase
    // (not a type name) and `null.x` contains `.` (also not a type name),
    // so they are parse errors. `nullish` matches the type-name grammar
    // and parses as the string "nullish" (an unknown type name produces a
    // verify-time error, not a parse error).
    for w in ["Null", "null.x"] {
        assert_eq!(err(format!("k: {w}").as_str()).kind, UnexpectedCharacter);
    }
    assert_eq!(scalar_text("k: nullish", "k"), "nullish");
}

#[test]
fn triple_as_list_item() {
    // Standalone closer adds \n; inline closer does not.
    let text = "l:\n  - \"\"\"\n    #!/bin/sh\n    echo hi\n    \"\"\"\n  - \"\"\"\n    no newline\"\"\"\n  - \"plain\"\n";
    let parsed = from_str(text).expect("parse");
    let items = parsed
        .as_map()
        .expect("map")
        .get("l")
        .expect("l")
        .as_list()
        .expect("list");
    assert_eq!(items.len(), 3);
    assert_eq!(
        items[0].as_scalar().expect("scalar").text,
        "#!/bin/sh\necho hi\n"
    );
    assert_eq!(items[1].as_scalar().expect("scalar").text, "no newline");
    assert_eq!(items[2].as_scalar().expect("scalar").text, "plain");
    // Serializer: trailing-\n strings use standalone closer; others use inline.
    let expected = "l:\n  - \"\"\"\n    #!/bin/sh\n    echo hi\n    \"\"\"\n  - \"no newline\"\n  - \"plain\"\n";
    assert_eq!(serialize::to_string(&parsed).unwrap(), expected);
}

#[test]
fn err_unknown_metakey() {
    assert_eq!(err("__bogus__: 1").kind, UnknownMetakey);
}

#[test]
fn err_metakey_not_at_root() {
    assert_eq!(err("a:\n  __schema__: x").kind, MetakeyOutsideRoot);
}

#[test]
fn err_list_marker_in_mapping() {
    assert_eq!(err("- x").kind, BadListMarker);
}

#[test]
fn err_double_space_after_colon() {
    assert_eq!(err("a:  x").kind, UnexpectedCharacter);
}

#[test]
fn err_depth_limit() {
    let mut t = String::from("a");
    for _ in 0..120 {
        t.push_str(".b");
    }
    t.push_str(": 1");
    assert_eq!(err(&t).kind, DepthLimit);
}

#[test]
fn err_depth_limit_across_dotted_pairs() {
    // Regression: each pair passed the depth check in isolation, but
    // the second dotted path grafts onto the first's leaf, so the
    // grafted tree exceeded MAX_DEPTH while both checks passed.
    let parent: Vec<String> = (0..60).map(|i| format!("k{i}")).collect();
    let child: Vec<String> = (0..60).map(|i| format!("m{i}")).collect();
    let t = format!("{}:\n  {}: 0\n", parent.join("."), child.join("."));
    assert_eq!(err(&t).kind, DepthLimit);
}

#[test]
fn depth_exactly_max_round_trips() {
    // 100 nested keys (51 dotted segments + 49 block levels) sits
    // exactly at the limit: the second pair's check is 52 + 49 - 1 =
    // MAX_DEPTH (root keys occupy slot 1). It parses, serializes, and
    // re-parses identically.
    let parent: Vec<String> = (0..51).map(|i| format!("k{i}")).collect();
    let child: Vec<String> = (0..49).map(|i| format!("m{i}")).collect();
    let t = format!("{}:\n  {}: 0\n", parent.join("."), child.join("."));
    let doc = from_str(&t).unwrap();
    let out = kvd_rs::serialize::to_string(&doc).unwrap();
    assert_eq!(from_str(&out).unwrap(), doc);
}

#[test]
fn quoted_key_with_dots() {
    let doc = from_str("metadata:\n  labels:\n    \"app.kubernetes.io/name\": guestbook\n")
        .expect("parse");
    let labels = doc
        .as_map()
        .unwrap()
        .get("metadata")
        .unwrap()
        .as_map()
        .unwrap()
        .get("labels")
        .unwrap()
        .as_map()
        .unwrap();
    assert_eq!(
        labels
            .get("app.kubernetes.io/name")
            .unwrap()
            .as_scalar()
            .unwrap()
            .text,
        "guestbook"
    );
}

#[test]
fn quoted_key_single_and_double() {
    let doc = from_str("'a.b.c': \"x\"\n\"d/e.f\": \"y\"\n").unwrap();
    let m = doc.as_map().unwrap();
    assert_eq!(m.get("a.b.c").unwrap().as_scalar().unwrap().text, "x");
    assert_eq!(m.get("d/e.f").unwrap().as_scalar().unwrap().text, "y");
}

#[test]
fn quoted_key_round_trips() {
    let text = "k:\n  \"app.kubernetes.io/name\": guestbook\n";
    let doc = from_str(text).unwrap();
    let out = kvd_rs::serialize::to_string(&doc).unwrap();
    assert_eq!(from_str(&out).unwrap(), doc);
}

#[test]
fn empty_quoted_key_rejected() {
    assert!(from_str("\"\": x\n").is_err());
}

#[test]
fn quoted_metakey_is_literal() {
    let doc = from_str("\"__schema__\": x\n").unwrap();
    assert!(doc.as_map().unwrap().get("__schema__").is_some());
}

#[test]
fn err_depth_limit_one_past_max() {
    // One segment more than the boundary case above.
    let parent: Vec<String> = (0..60).map(|i| format!("k{i}")).collect();
    let child: Vec<String> = (0..42).map(|i| format!("m{i}")).collect();
    let t = format!("{}:\n  {}: 0\n", parent.join("."), child.join("."));
    assert_eq!(err(&t).kind, DepthLimit);
}
