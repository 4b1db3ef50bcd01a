use kvd_rs::ops;
use kvd_rs::ops::{get, get_mut, remove, remove_recursive, OpError, Path, Segment};
use kvd_rs::value::{Mapping, Node, Shape};

fn doc() -> Node {
    // a:
    //   b: "x"
    // list:
    //   - "p"
    //   - "q"
    //   - "r"
    let mut inner = Mapping::new();
    inner.insert("b".into(), Node::scalar(Shape::Str, "x"));
    let mut root = Mapping::new();
    root.insert("a".into(), Node::map(inner));
    root.insert(
        "list".into(),
        Node::list(vec![
            Node::scalar(Shape::Str, "p"),
            Node::scalar(Shape::Str, "q"),
            Node::scalar(Shape::Str, "r"),
        ]),
    );
    Node::map(root)
}

// --- Path parsing ---

#[test]
fn parse_simple_keys() {
    let p = Path::parse("a.b.c").unwrap();
    assert_eq!(
        p.segments(),
        &[
            Segment::Key("a".into()),
            Segment::Key("b".into()),
            Segment::Key("c".into())
        ]
    );
}

#[test]
fn parse_list_indices() {
    let p = Path::parse("a[0].b[2]").unwrap();
    assert_eq!(
        p.segments(),
        &[
            Segment::Key("a".into()),
            Segment::Index(0),
            Segment::Key("b".into()),
            Segment::Index(2),
        ]
    );
}

#[test]
fn parse_nested_list_index() {
    let p = Path::parse("a[0][1]").unwrap();
    assert_eq!(
        p.segments(),
        &[
            Segment::Key("a".into()),
            Segment::Index(0),
            Segment::Index(1)
        ]
    );
}

#[test]
fn parse_empty_path() {
    assert!(Path::parse("").is_err());
    let p = Path::parse("").unwrap_err();
    assert!(matches!(p, OpError::BadPath(_)));
}

#[test]
fn parse_rejects_bad_syntax() {
    assert!(Path::parse(".a").is_err()); // leading dot
    assert!(Path::parse("a.").is_err()); // trailing dot
    assert!(Path::parse("a..b").is_err()); // empty segment
    assert!(Path::parse("a[0").is_err()); // unterminated bracket
    assert!(Path::parse("a[]").is_err()); // empty index
    assert!(Path::parse("a[-1]").is_err()); // negative index
    assert!(Path::parse("a[1.5]").is_err()); // non-integer index
    assert!(Path::parse("a[x]").is_err()); // non-numeric index
    assert!(Path::parse("a.b.c]").is_err()); // stray bracket
    assert!(Path::parse("a.b.c[").is_err()); // stray bracket
}

#[test]
fn parse_accepts_valid_keys_with_dash_underscore() {
    // b-c and b_c are valid keys per the grammar; dots are separators.
    assert!(Path::parse("a.b-c").is_ok());
    assert!(Path::parse("a.b_c").is_ok());
    assert!(Path::parse("8080.port").is_ok());
}

#[test]
fn parse_rejects_key_with_dot() {
    // A literal dot inside a segment is impossible: dots separate
    // segments, so `a.b.c` is three keys, never one key containing a dot.
    let p = Path::parse("a.b.c").unwrap();
    assert_eq!(p.segments().len(), 3);
}

#[test]
fn from_str_works() {
    let p: Path = "a.b[0]".parse().unwrap();
    assert_eq!(p.segments()[2], Segment::Index(0));
}

// --- get ---

#[test]
fn get_existing_scalar() {
    let d = doc();
    let p = Path::parse("a.b").unwrap();
    assert_eq!(get(&d, &p).unwrap().as_scalar().unwrap().text, "x");
}

#[test]
fn get_list_element() {
    let d = doc();
    let p = Path::parse("list[1]").unwrap();
    assert_eq!(get(&d, &p).unwrap().as_scalar().unwrap().text, "q");
}

#[test]
fn get_missing_returns_none() {
    let d = doc();
    assert!(get(&d, &Path::parse("a.missing").unwrap()).is_none());
    assert!(get(&d, &Path::parse("list[9]").unwrap()).is_none());
    assert!(get(&d, &Path::parse("a.b.c").unwrap()).is_none());
}

// --- get_mut ---

#[test]
fn get_mut_modifies_value() {
    let mut d = doc();
    let p = Path::parse("a.b").unwrap();
    *get_mut(&mut d, &p).unwrap() = Node::scalar(Shape::Str, "changed");
    assert_eq!(get(&d, &p).unwrap().as_scalar().unwrap().text, "changed");
}

// --- set ---

#[test]
fn set_new_key() {
    let mut d = doc();
    ops::set(
        &mut d,
        &Path::parse("a.c").unwrap(),
        Node::scalar(Shape::Int, "42"),
    )
    .unwrap();
    assert_eq!(
        get(&d, &Path::parse("a.c").unwrap())
            .unwrap()
            .as_scalar()
            .unwrap()
            .text,
        "42"
    );
}

#[test]
fn set_replaces_existing() {
    let mut d = doc();
    ops::set(
        &mut d,
        &Path::parse("a.b").unwrap(),
        Node::scalar(Shape::Int, "99"),
    )
    .unwrap();
    assert_eq!(
        get(&d, &Path::parse("a.b").unwrap())
            .unwrap()
            .as_scalar()
            .unwrap()
            .text,
        "99"
    );
}

#[test]
fn set_creates_intermediate_maps() {
    let mut d = doc();
    ops::set(
        &mut d,
        &Path::parse("x.y.z").unwrap(),
        Node::scalar(Shape::Str, "deep"),
    )
    .unwrap();
    assert_eq!(
        get(&d, &Path::parse("x.y.z").unwrap())
            .unwrap()
            .as_scalar()
            .unwrap()
            .text,
        "deep"
    );
}

#[test]
fn set_list_element() {
    let mut d = doc();
    ops::set(
        &mut d,
        &Path::parse("list[0]").unwrap(),
        Node::scalar(Shape::Str, "P"),
    )
    .unwrap();
    assert_eq!(
        get(&d, &Path::parse("list[0]").unwrap())
            .unwrap()
            .as_scalar()
            .unwrap()
            .text,
        "P"
    );
}

#[test]
fn set_rejects_out_of_range_index() {
    let mut d = doc();
    let err = ops::set(
        &mut d,
        &Path::parse("list[5]").unwrap(),
        Node::scalar(Shape::Str, "x"),
    )
    .unwrap_err();
    assert!(matches!(err, OpError::IndexOutOfBounds(5)));
}

#[test]
fn set_rejects_wrong_shape() {
    let mut d = doc();
    // a.b is a scalar; cannot descend into it with a.b.c
    let err = ops::set(
        &mut d,
        &Path::parse("a.b.c").unwrap(),
        Node::scalar(Shape::Str, "x"),
    )
    .unwrap_err();
    assert_eq!(err, OpError::NotAMap);
}

#[test]
fn set_rejects_root() {
    let mut d = doc();
    assert!(ops::set(&mut d, &Path::default(), Node::map(Mapping::new())).is_err());
}

// --- remove ---

#[test]
fn remove_leaf_returns_node() {
    let mut d = doc();
    let removed = remove(&mut d, &Path::parse("a.b").unwrap()).unwrap();
    assert_eq!(removed.unwrap().as_scalar().unwrap().text, "x");
    assert!(get(&d, &Path::parse("a.b").unwrap()).is_none());
    // ancestor `a` is left as an empty map, not pruned
    assert!(get(&d, &Path::parse("a").unwrap())
        .unwrap()
        .as_map()
        .is_some());
    assert!(get(&d, &Path::parse("a").unwrap())
        .unwrap()
        .as_map()
        .unwrap()
        .is_empty());
}

#[test]
fn remove_list_element() {
    let mut d = doc();
    let removed = remove(&mut d, &Path::parse("list[1]").unwrap()).unwrap();
    assert_eq!(removed.unwrap().as_scalar().unwrap().text, "q");
    assert_eq!(
        get(&d, &Path::parse("list").unwrap())
            .unwrap()
            .as_list()
            .unwrap()
            .len(),
        2
    );
    assert_eq!(
        get(&d, &Path::parse("list[1]").unwrap())
            .unwrap()
            .as_scalar()
            .unwrap()
            .text,
        "r"
    );
}

#[test]
fn remove_missing_key_errors() {
    let mut d = doc();
    let err = remove(&mut d, &Path::parse("a.missing").unwrap()).unwrap_err();
    assert!(matches!(err, OpError::MissingKey(_)));
}

#[test]
fn remove_out_of_range_errors() {
    let mut d = doc();
    let err = remove(&mut d, &Path::parse("list[9]").unwrap()).unwrap_err();
    assert!(matches!(err, OpError::IndexOutOfBounds(9)));
}

// --- remove_recursive ---

#[test]
fn remove_recursive_prunes_empty_ancestors() {
    // Build: parent: { child: { leaf: "v" } }
    let mut child = Mapping::new();
    child.insert("leaf".into(), Node::scalar(Shape::Str, "v"));
    let mut parent = Mapping::new();
    parent.insert("child".into(), Node::map(child));
    let mut root = Mapping::new();
    root.insert("parent".into(), Node::map(parent));
    let mut d = Node::map(root);

    remove_recursive(&mut d, &Path::parse("parent.child.leaf").unwrap()).unwrap();
    // both child and parent are now gone
    assert!(get(&d, &Path::parse("parent").unwrap()).is_none());
}

#[test]
fn remove_recursive_stops_at_nonempty_ancestor() {
    let mut child = Mapping::new();
    child.insert("leaf".into(), Node::scalar(Shape::Str, "v"));
    child.insert("keep".into(), Node::scalar(Shape::Str, "k"));
    let mut parent = Mapping::new();
    parent.insert("child".into(), Node::map(child));
    let mut root = Mapping::new();
    root.insert("parent".into(), Node::map(parent));
    let mut d = Node::map(root);

    remove_recursive(&mut d, &Path::parse("parent.child.leaf").unwrap()).unwrap();
    // child still has `keep`, so parent survives
    assert!(get(&d, &Path::parse("parent.child.keep").unwrap()).is_some());
    assert!(get(&d, &Path::parse("parent.child.leaf").unwrap()).is_none());
}

#[test]
fn path_parse_quoted_segments() {
    let p = Path::parse(r#"metadata.labels."app.kubernetes.io/name""#).unwrap();
    let segs: Vec<&str> = p.segments().iter().map(|s| s.as_key().unwrap()).collect();
    assert_eq!(segs, vec!["metadata", "labels", "app.kubernetes.io/name"]);
}

#[test]
fn path_get_quoted_label() {
    let doc = kvd_rs::deserialize::from_str(
        "metadata:\n  labels:\n    \"app.kubernetes.io/name\": guestbook\n",
    )
    .unwrap();
    let p = Path::parse(r#"metadata.labels."app.kubernetes.io/name""#).unwrap();
    let v = get(&doc, &p).unwrap();
    assert_eq!(v.as_scalar().unwrap().text, "guestbook");
}

#[test]
fn path_parse_single_quoted() {
    let p = Path::parse("a.'b.c'.d").unwrap();
    let segs: Vec<&str> = p.segments().iter().map(|s| s.as_key().unwrap()).collect();
    assert_eq!(segs, vec!["a", "b.c", "d"]);
}

#[test]
fn path_empty_quoted_key_rejected() {
    assert!(Path::parse("a.\"\".b").is_err());
}

#[test]
fn remove_recursive_does_not_prune_list_elements() {
    // list: [ { leaf: "v" } ]
    let mut inner = Mapping::new();
    inner.insert("leaf".into(), Node::scalar(Shape::Str, "v"));
    let mut root = Mapping::new();
    root.insert("list".into(), Node::list(vec![Node::map(inner)]));
    let mut d = Node::map(root);

    remove_recursive(&mut d, &Path::parse("list[0].leaf").unwrap()).unwrap();
    // the list element (now an empty map) is kept, not pruned
    let list = get(&d, &Path::parse("list").unwrap())
        .unwrap()
        .as_list()
        .unwrap();
    assert_eq!(list.len(), 1);
    assert!(list[0].as_map().unwrap().is_empty());
}

#[test]
fn path_from_str_matches_parse() {
    let p: Path = "a[0].b".parse().unwrap();
    assert_eq!(p, Path::parse("a[0].b").unwrap());
    let e = "a..b".parse::<Path>().unwrap_err();
    assert_eq!(e, Path::parse("a..b").unwrap_err());
    assert!(matches!(e, OpError::BadPath(_)));
}
