use kvd_rs::error::ErrorKind;
use kvd_rs::value::{Mapping, Node, Scalar, Shape};

#[test]
fn scalar_from_str() {
    let s = Scalar::from("hello");
    assert_eq!(s.shape, Shape::Str);
    assert_eq!(s.text, "hello");
    assert_eq!(s.raw, "hello");
}

#[test]
fn scalar_from_numbers_and_bool() {
    assert_eq!(Scalar::from(42i64).shape, Shape::Int);
    assert_eq!(Scalar::from(42i64).text, "42");
    assert_eq!(Scalar::from(true).shape, Shape::Bool);
    assert_eq!(Scalar::from(true).text, "true");
}

#[test]
fn scalar_with_raw_keeps_token() {
    let s = Scalar::with_raw(Shape::Str, "hello", "\"hello\"");
    assert_eq!(s.text, "hello");
    assert_eq!(s.raw, "\"hello\"");
}

#[test]
fn map_preserves_insertion_order() {
    let mut m = Mapping::new();
    m.insert("b".into(), Node::scalar(Shape::Int, "1"));
    m.insert("a".into(), Node::scalar(Shape::Int, "2"));
    let keys: Vec<&str> = m.iter().into_iter().map(|(k, _)| k).collect();
    assert_eq!(keys, vec!["b", "a"]);
    assert_eq!(m.len(), 2);
    assert!(!m.is_empty());
    assert!(m.contains_key("a"));
    assert!(!m.contains_key("z"));
}

#[test]
fn map_get_and_get_mut() {
    let mut m = Mapping::new();
    m.insert("k".into(), Node::scalar(Shape::Int, "1"));
    assert!(m.get("k").is_some());
    assert!(m.get("missing").is_none());
    if let Some(node) = m.get_mut("k") {
        *node = Node::scalar(Shape::Int, "2");
    }
    assert_eq!(m.get("k").unwrap().as_scalar().unwrap().text, "2");
}

#[test]
fn map_into_iter_yields_owned_pairs() {
    let mut m = Mapping::new();
    m.insert("k".into(), Node::scalar(Shape::Int, "1"));
    let pairs: Vec<(String, Node)> = m.into_entries().into_iter().collect();
    assert_eq!(pairs.len(), 1);
    assert_eq!(pairs[0].0, "k");
}

#[test]
fn node_accessors() {
    let s = Node::scalar(Shape::Str, "x");
    assert!(s.as_scalar().is_some());
    assert!(s.as_map().is_none());
    assert!(s.as_list().is_none());

    let m = Node::map(Mapping::new());
    assert!(m.as_map().is_some());
    assert!(m.as_scalar().is_none());

    let mut l = Node::list(vec![Node::scalar(Shape::Int, "1")]);
    assert_eq!(l.as_list().unwrap().len(), 1);
    assert!(l.as_list_mut().is_some());
    assert!(l.as_scalar_mut().is_none());
}

#[test]
fn node_from_impls() {
    let n: Node = Scalar::from("x").into();
    assert!(n.as_scalar().is_some());
    let n: Node = Mapping::new().into();
    assert!(n.as_map().is_some());
    let n: Node = vec![Node::scalar(Shape::Int, "1")].into();
    assert!(n.as_list().is_some());
}

#[test]
fn shape_as_str_and_display() {
    assert_eq!(Shape::Int.as_str(), "int");
    assert_eq!(Shape::Float.as_str(), "float");
    assert_eq!(Shape::Bool.as_str(), "bool");
    assert_eq!(Shape::Str.as_str(), "str");
    assert_eq!(Shape::Null.as_str(), "null");
    assert_eq!(Shape::Int.to_string(), "int");
    assert_eq!(Shape::Null.to_string(), "null");
}

#[test]
fn scalar_from_string() {
    let s: Scalar = String::from("hello").into();
    assert_eq!(s.shape, Shape::Str);
    assert_eq!(s.text, "hello");
}

#[test]
fn map_entries_borrows_raw_slice() {
    let mut m = Mapping::new();
    m.insert("k".into(), Node::scalar(Shape::Int, "1"));
    let entries = m.entries();
    assert_eq!(entries.len(), 1);
    assert_eq!(entries[0].0, "k");
}

#[test]
fn node_mut_accessors_and_fallbacks() {
    // as_scalar_mut on a scalar node hits the Some branch.
    let mut s = Node::scalar(Shape::Str, "x");
    assert!(s.as_scalar_mut().is_some());
    assert!(s.as_scalar_mut().unwrap().text == "x");

    // as_map_mut: Some on a map, None on a non-map.
    let mut m = Node::map(Mapping::new());
    assert!(m.as_map_mut().is_some());
    let mut s2 = Node::scalar(Shape::Str, "x");
    assert!(s2.as_map_mut().is_none());

    // as_list_mut: Some on a list, None on a non-list.
    let mut l = Node::list(vec![Node::scalar(Shape::Int, "1")]);
    assert!(l.as_list_mut().is_some());
    let mut s3 = Node::scalar(Shape::Str, "x");
    assert!(s3.as_list_mut().is_none());
}

#[test]
fn node_get_navigates_and_errors() {
    let mut app = Node::map(Mapping::new());
    app.as_map_mut()
        .unwrap()
        .insert("port".into(), Node::scalar(Shape::Int, "8080"));
    let mut root = Node::map(Mapping::new());
    root.as_map_mut().unwrap().insert("app".into(), app);

    // strict get chains through maps
    let port = root.get("app").unwrap().get("port").unwrap();
    assert_eq!(port.as_scalar().unwrap().text, "8080");

    // get on a scalar errors with NotAMap
    let port_node = root.get("app").unwrap().get("port").unwrap();
    assert!(matches!(port_node.get("x"), Err(e) if e.kind == ErrorKind::NotAMap));

    // missing key errors with KeyNotFound
    assert!(matches!(
        root.get("app").unwrap().get("missing"),
        Err(e) if e.kind == ErrorKind::KeyNotFound
    ));

    // get_opt yields None for non-map and missing key
    assert!(port_node.get_opt("x").is_none());
    assert!(root.get("app").unwrap().get_opt("missing").is_none());
}

#[test]
fn node_get_path_reports_chain() {
    let mut app = Node::map(Mapping::new());
    app.as_map_mut()
        .unwrap()
        .insert("port".into(), Node::scalar(Shape::Int, "8080"));
    let mut root = Node::map(Mapping::new());
    root.as_map_mut().unwrap().insert("app".into(), app);

    // full chain resolves (slice and dotted forms agree)
    assert_eq!(
        root.get_path(&["app", "port"])
            .unwrap()
            .as_scalar()
            .unwrap()
            .text,
        "8080"
    );
    assert_eq!(
        root.get_path_str("app.port")
            .unwrap()
            .as_scalar()
            .unwrap()
            .text,
        "8080"
    );

    // missing key reports the full chain
    let e = root.get_path(&["app", "missing"]).unwrap_err();
    assert_eq!(e.kind, ErrorKind::KeyNotFound);
    assert!(e.message.starts_with("app.missing:"), "got: {}", e.message);

    // indexing into a scalar reports the chain up to the scalar
    let e = root.get_path(&["app", "port", "x"]).unwrap_err();
    assert_eq!(e.kind, ErrorKind::NotAMap);
    assert!(e.message.contains("app.port"), "got: {}", e.message);
    assert!(e.message.contains("scalar"), "got: {}", e.message);

    // optional variants yield None
    assert!(root.get_path_opt(&["app", "missing"]).is_none());
    assert!(root.get_path_str_opt("app.port.x").is_none());
}
