//! Checking a document against a well-formed schema.
use vstd::prelude::*;
use crate::text::{chars_of, decimal, extend, extend_str};
use crate::value::{join_path_spec, map_find, Mapping, Node, NodeV, ScalarV, Shape};
use super::{
    bad_leaf_message, builtin, builtin_spec, check_validation_for_list_or_dict,
    check_validation_for_scalar, collection_validation_spec, container_leaf_message, descriptor,
    descriptor_spec, has_meta, has_meta_keys, is_optional_leaf, kind_name, kind_of, msg3,
    push_violation, push_violation_str, scalar_validation_spec, shape_label, shape_name, type_ref,
    type_ref_spec, viols, Builtin, Violation, ViolationV,
};
use crate::serialize::{lemma_list_view_pub, list_view};

verus! {

/// The message for a null under a required type.
pub open spec fn null_message() -> Seq<char> {
    "null requires an optional type (`optional: true`)"@
}

/// The path of item `i` under `path`.
pub open spec fn item_path(path: Seq<char>, i: nat) -> Seq<char> {
    path + "["@ + decimal(i) + "]"@
}

/// `expected <what>, found <kind>`.
pub open spec fn mismatch(what: Seq<char>, found: Seq<char>) -> Seq<char> {
    "expected "@ + what + ", found "@ + found
}

/// How a scalar builtin type is named in messages.
pub open spec fn expected_label(b: Builtin) -> Seq<char> {
    match b {
        Builtin::Int => "int"@,
        Builtin::Float => "float"@,
        Builtin::Bool => "bool"@,
        Builtin::Str => "string"@,
        Builtin::List => "list"@,
        Builtin::Dict => "dict"@,
    }
}

/// Whether a scalar shape is the one a scalar builtin type asks for.
pub open spec fn shape_fits(b: Builtin, s: Shape) -> bool {
    match b {
        Builtin::Int => s == Shape::Int,
        Builtin::Float => s == Shape::Float,
        Builtin::Bool => s == Shape::Bool,
        Builtin::Str => s == Shape::Str,
        _ => false,
    }
}

/// The shape violation of a value under a scalar builtin type, if any.
pub open spec fn shape_issues(b: Builtin, data: NodeV, path: Seq<char>) -> Seq<ViolationV> {
    match data {
        NodeV::Scalar(s) => if shape_fits(b, s.shape) {
            Seq::empty()
        } else {
            seq![(path, mismatch(expected_label(b), shape_label(s.shape)))]
        },
        _ => seq![(path, mismatch(expected_label(b), kind_name(data)))],
    }
}

/// The element schema of a one-item schema list or of a container
/// descriptor with an `element` key.
pub open spec fn element_of(schema: NodeV) -> Option<NodeV> {
    match schema {
        NodeV::List(l) => if l.len() > 0 {
            Some(l[0])
        } else {
            None
        },
        NodeV::Mapping(m) => match map_find(m, "element"@) {
            Some(i) => if 0 <= i < m.len() {
                Some(m[i].1)
            } else {
                None
            },
            None => None,
        },
        NodeV::Scalar(_) => None,
    }
}

/// Data keys `dm[i..]` that the schema map `m` does not declare.
pub open spec fn unknown_keys_from(
    m: Seq<(Seq<char>, NodeV)>,
    dm: Seq<(Seq<char>, NodeV)>,
    i: int,
    path: Seq<char>,
) -> Seq<ViolationV>
    decreases dm.len() - i,
{
    if i < 0 || i >= dm.len() {
        Seq::empty()
    } else {
        (if map_find(m, dm[i].0) is None {
            seq![(join_path_spec(path, dm[i].0), "unknown key (not in schema)"@)]
        } else {
            Seq::empty()
        }) + unknown_keys_from(m, dm, i + 1, path)
    }
}

/// What part of the check of a node is meant.
pub enum CMode {
    /// The whole check of a data node against a schema node.
    Node,
    /// The check against a leaf descriptor.
    Descriptor,
    /// The check against a `type: list` descriptor.
    ListDesc,
    /// The check against a `type: dict` descriptor.
    DictDesc,
    /// The declared entries of a schema map from the given one on.
    Entries(nat),
    /// The items of a data list from the given one on, against the element.
    Items(nat),
    /// The values of a data dict from the given one on, against the element.
    DictItems(nat),
}

/// Roles that hand on to another role of the same schema node rank higher.
pub open spec fn crank(m: CMode) -> nat {
    match m {
        CMode::Node => 3,
        CMode::Descriptor => 2,
        CMode::ListDesc => 1,
        CMode::DictDesc => 1,
        _ => 0,
    }
}

/// Entries or items still to check.
pub open spec fn cleft(schema: NodeV, data: NodeV, m: CMode) -> nat {
    match m {
        CMode::Entries(k) => match schema {
            NodeV::Mapping(e) => if k < e.len() {
                (e.len() - k) as nat
            } else {
                0
            },
            _ => 0,
        },
        CMode::Items(k) => match data {
            NodeV::List(l) => if k < l.len() {
                (l.len() - k) as nat
            } else {
                0
            },
            _ => 0,
        },
        CMode::DictItems(k) => match data {
            NodeV::Mapping(e) => if k < e.len() {
                (e.len() - k) as nat
            } else {
                0
            },
            _ => 0,
        },
        _ => 0,
    }
}

/// The violations of `data` against a well-formed `schema`, in the order
/// they are reported.
pub open spec fn check_issues(schema: NodeV, data: NodeV, mode: CMode, path: Seq<char>) -> Seq<ViolationV>
    decreases schema, crank(mode), cleft(schema, data, mode),
{
    match mode {
        CMode::Node => match schema {
            NodeV::Mapping(m) => if m.len() == 0 {
                if data is Mapping {
                    Seq::empty()
                } else {
                    seq![(path, mismatch("a dict"@, kind_name(data)))]
                }
            } else if descriptor_spec(schema) is Some {
                check_issues(schema, data, CMode::Descriptor, path)
            } else if has_meta_keys(m) {
                seq![(path, "descriptor requires a `type` key"@)]
            } else {
                match data {
                    NodeV::Mapping(dm) => unknown_keys_from(m, dm, 0, path) + check_issues(
                        schema,
                        data,
                        CMode::Entries(0),
                        path,
                    ),
                    _ => seq![(path, mismatch("a map"@, kind_name(data)))],
                }
            },
            NodeV::List(l) => if l.len() == 0 {
                if data is List {
                    Seq::empty()
                } else {
                    seq![(path, mismatch("a list"@, kind_name(data)))]
                }
            } else if l.len() != 1 {
                seq![(path, "schema list must declare exactly one element type, found "@ + decimal(l.len()))]
            } else if data is List {
                check_issues(schema, data, CMode::Items(0), path)
            } else {
                seq![(path, mismatch("a list"@, kind_name(data)))]
            },
            NodeV::Scalar(s) => match type_ref_spec(s) {
                None => seq![(path, bad_leaf_message())],
                Some(name) => if name == "list"@ || name == "dict"@ {
                    seq![(path, container_leaf_message())]
                } else {
                    check_issues(schema, data, CMode::Descriptor, path)
                },
            },
        },
        CMode::Descriptor => match descriptor_spec(schema) {
            None => Seq::empty(),
            Some((name, optional)) => if data matches NodeV::Scalar(sc) && sc.shape == Shape::Null {
                if optional {
                    Seq::empty()
                } else {
                    seq![(path, null_message())]
                }
            } else if name == "list"@ {
                check_issues(schema, data, CMode::ListDesc, path)
            } else if name == "dict"@ {
                check_issues(schema, data, CMode::DictDesc, path)
            } else {
                match builtin_spec(name) {
                    Some(base) => {
                        let sh = shape_issues(base, data, path);
                        if sh.len() == 0 {
                            scalar_validation_spec(schema, data, base, path)
                        } else {
                            sh
                        }
                    },
                    None => seq![(path, "unknown type `"@ + name + "`"@)],
                }
            },
        },
        CMode::ListDesc => if data is List {
            collection_validation_spec(schema, data, Builtin::List, path) + if element_of(schema) is Some {
                check_issues(schema, data, CMode::Items(0), path)
            } else {
                seq![(path, "type: list requires an `element` key"@)]
            }
        } else {
            seq![(path, mismatch("a list"@, kind_name(data)))]
        },
        CMode::DictDesc => if data is Mapping {
            collection_validation_spec(schema, data, Builtin::Dict, path) + if element_of(schema) is Some {
                check_issues(schema, data, CMode::DictItems(0), path)
            } else {
                Seq::empty()
            }
        } else {
            seq![(path, mismatch("a dict"@, kind_name(data)))]
        },
        CMode::Entries(k) => match (schema, data) {
            (NodeV::Mapping(m), NodeV::Mapping(dm)) => if k < m.len() {
                let sub = m[k as int].1;
                let p = join_path_spec(path, m[k as int].0);
                (match map_find(dm, m[k as int].0) {
                    None => if is_optional_leaf(sub) {
                        Seq::empty()
                    } else {
                        seq![(p, "missing key"@)]
                    },
                    Some(j) => if 0 <= j < dm.len() {
                        check_issues(sub, dm[j].1, CMode::Node, p)
                    } else {
                        Seq::empty()
                    },
                }) + check_issues(schema, data, CMode::Entries(k + 1), path)
            } else {
                Seq::empty()
            },
            _ => Seq::empty(),
        },
        CMode::Items(k) => match (element_of(schema), data) {
            (Some(e), NodeV::List(dl)) => if k < dl.len() {
                check_issues(e, dl[k as int], CMode::Node, item_path(path, k)) + check_issues(
                    schema,
                    data,
                    CMode::Items(k + 1),
                    path,
                )
            } else {
                Seq::empty()
            },
            _ => Seq::empty(),
        },
        CMode::DictItems(k) => match (element_of(schema), data) {
            (Some(e), NodeV::Mapping(dm)) => if k < dm.len() {
                check_issues(e, dm[k as int].1, CMode::Node, join_path_spec(path, dm[k as int].0))
                    + check_issues(schema, data, CMode::DictItems(k + 1), path)
            } else {
                Seq::empty()
            },
            _ => Seq::empty(),
        },
    }
}

/// The path of item `i` under `path`.
fn item_path_of(path: &Vec<char>, i: usize) -> (r: Vec<char>)
    ensures
        r@ == item_path(path@, i as nat),
{
    let mut r: Vec<char> = Vec::new();
    extend(&mut r, path);
    extend_str(&mut r, "[");
    extend(&mut r, &crate::text::usize_to_chars(i));
    extend_str(&mut r, "]");
    r
}

/// `expected <what>, found <kind of data>`.
fn mismatch_kind(what: &str, data: &Node) -> (m: Vec<char>)
    ensures
        m@ == mismatch(what@, kind_name(data@)),
{
    let mut m: Vec<char> = Vec::new();
    extend_str(&mut m, "expected ");
    extend_str(&mut m, what);
    extend_str(&mut m, ", found ");
    extend_str(&mut m, kind_of(data));
    m
}

/// The element schema of a one-item schema list or a container descriptor.
fn element_node(schema: &Node) -> (r: Option<&Node>)
    ensures
        r matches Some(x) ==> element_of(schema@) == Some(x@) && decreases_to!(*schema => *x),
        r is None ==> element_of(schema@) is None,
{
    match schema {
        Node::List(l) => {
            proof {
                lemma_list_view_pub(schema, l);
            }
            if l.len() > 0 {
                proof {
                    assert(decreases_to!(l => l@));
                    assert(decreases_to!(l@ => l@[0]));
                }
                Some(&l[0])
            } else {
                None
            }
        },
        Node::Mapping(m) => {
            let k = chars_of("element");
            match m.find(&k) {
                Some(i) => Some(m.node_at(i)),
                None => None,
            }
        },
        Node::Scalar(_) => None,
    }
}

/// Whether a schema node declares an optional leaf.
fn optional_leaf(schema: &Node) -> (r: bool)
    ensures
        r == is_optional_leaf(schema@),
{
    match descriptor(schema) {
        Some((_, o)) => o,
        None => false,
    }
}

/// Checks a value against a scalar builtin type's shape.
fn check_shape(base: Builtin, data: &Node, path: &Vec<char>, out: &mut Vec<Violation>)
    requires
        base != Builtin::List,
        base != Builtin::Dict,
    ensures
        viols(final(out)@) == viols(old(out)@) + shape_issues(base, data@, path@),
{
    let expected = match base {
        Builtin::Int => "int",
        Builtin::Float => "float",
        Builtin::Bool => "bool",
        _ => "string",
    };
    assert(expected@ == expected_label(base));
    match data {
        Node::Scalar(s) => {
            let ok = match base {
                Builtin::Int => s.shape == Shape::Int,
                Builtin::Float => s.shape == Shape::Float,
                Builtin::Bool => s.shape == Shape::Bool,
                _ => s.shape == Shape::Str,
            };
            if !ok {
                let mut m: Vec<char> = Vec::new();
                extend_str(&mut m, "expected ");
                extend_str(&mut m, expected);
                extend_str(&mut m, ", found ");
                extend_str(&mut m, shape_name(s.shape));
                push_violation(out, path, &m);
            } else {
                assert(viols(out@) =~= viols(out@) + Seq::<ViolationV>::empty());
            }
        },
        _ => {
            let m = mismatch_kind(expected, data);
            push_violation(out, path, &m);
        },
    }
}

/// Data keys that the schema map does not declare.
fn check_unknown_keys(m: &Mapping, dm: &Mapping, path: &Vec<char>, out: &mut Vec<Violation>)
    ensures
        viols(final(out)@) == viols(old(out)@) + unknown_keys_from(m@, dm@, 0, path@),
{
    let ghost total = unknown_keys_from(m@, dm@, 0, path@);
    let mut i: usize = 0;
    while i < dm.len()
        invariant
            i <= dm@.len(),
            total == unknown_keys_from(m@, dm@, 0, path@),
            viols(old(out)@) + total == viols(out@) + unknown_keys_from(m@, dm@, i as int, path@),
        decreases dm@.len() - i,
    {
        let k = chars_of(dm.key_at(i).as_str());
        let ghost before = viols(out@);
        if m.find(&k).is_none() {
            let p = crate::value::join_path(path, &k);
            push_violation_str(out, &p, "unknown key (not in schema)");
        } else {
            assert(viols(out@) =~= viols(out@) + Seq::<ViolationV>::empty());
        }
        proof {
            let rest = unknown_keys_from(m@, dm@, i + 1, path@);
            let whole = unknown_keys_from(m@, dm@, i as int, path@);
            let part = whole.take(whole.len() - rest.len());
            assert(whole =~= part + rest);
            assert(viols(out@) =~= before + part);
            assert(before + (part + rest) =~= (before + part) + rest);
        }
        i += 1;
    }
    assert(viols(out@) + Seq::<ViolationV>::empty() =~= viols(out@));
}

/// Recursively checks `data` against a well-formed `schema`, appending the
/// violations found.
pub fn check(schema: &Node, data: &Node, path: &Vec<char>, out: &mut Vec<Violation>)
    ensures
        viols(final(out)@) == viols(old(out)@) + check_issues(schema@, data@, CMode::Node, path@),
    decreases schema, 3nat,
{
    assert(viols(old(out)@) =~= viols(old(out)@) + Seq::<ViolationV>::empty());
    match schema {
        Node::Mapping(m) => {
            if m.is_empty() {
                if data.as_map().is_none() {
                    let msg = mismatch_kind("a dict", data);
                    push_violation(out, path, &msg);
                }
                return ;
            }
            if descriptor(schema).is_some() {
                check_descriptor(schema, data, path, out);
                return ;
            }
            if has_meta(m) {
                push_violation_str(out, path, "descriptor requires a `type` key");
                return ;
            }
            let dm = match data {
                Node::Mapping(dm) => dm,
                _ => {
                    let msg = mismatch_kind("a map", data);
                    push_violation(out, path, &msg);
                    return ;
                },
            };
            let ghost o0 = viols(out@);
            check_unknown_keys(m, dm, path, out);
            let ghost o1 = viols(out@);
            check_entries(schema, data, path, out);
            proof {
                let a = unknown_keys_from(m@, dm@, 0, path@);
                let b = check_issues(schema@, data@, CMode::Entries(0), path@);
                assert(viols(out@) =~= o0 + (a + b));
            }
        },
        Node::List(items) => {
            proof {
                lemma_list_view_pub(schema, items);
            }
            if items.len() == 0 {
                if data.as_list().is_none() {
                    let msg = mismatch_kind("a list", data);
                    push_violation(out, path, &msg);
                }
                return ;
            }
            if items.len() != 1 {
                let mut msg: Vec<char> = Vec::new();
                extend_str(&mut msg, "schema list must declare exactly one element type, found ");
                extend(&mut msg, &crate::text::usize_to_chars(items.len()));
                push_violation(out, path, &msg);
                return ;
            }
            match data {
                Node::List(_) => {
                    check_items(schema, data, path, out);
                },
                _ => {
                    let msg = mismatch_kind("a list", data);
                    push_violation(out, path, &msg);
                },
            }
        },
        Node::Scalar(s) => {
            match type_ref(s) {
                None => {
                    push_violation_str(out, path, "schema leaf must be a type name or `{}`/`[]`");
                },
                Some(name) => {
                    if crate::text::chars_eq_str(&name, "list") || crate::text::chars_eq_str(&name, "dict") {
                        push_violation_str(
                            out,
                            path,
                            "`list`/`dict` may only appear in a descriptor (`type: list` / `type: dict`)",
                        );
                    } else {
                        check_descriptor(schema, data, path, out);
                    }
                },
            }
        },
    }
}

/// Checks `data` against a leaf descriptor: a null needs an optional
/// type; containers are handed on; scalars are checked for shape and,
/// when the shape fits, against their `validation` constraints.
fn check_descriptor(schema: &Node, data: &Node, path: &Vec<char>, out: &mut Vec<Violation>)
    ensures
        viols(final(out)@) == viols(old(out)@) + check_issues(schema@, data@, CMode::Descriptor, path@),
    decreases schema, 2nat,
{
    assert(viols(old(out)@) =~= viols(old(out)@) + Seq::<ViolationV>::empty());
    let (name, optional) = match descriptor(schema) {
        Some(d) => d,
        None => return ,
    };
    match data {
        Node::Scalar(sc) => {
            if sc.shape == Shape::Null {
                if !optional {
                    push_violation_str(out, path, "null requires an optional type (`optional: true`)");
                }
                return ;
            }
        },
        _ => {},
    }
    if crate::text::chars_eq_str(&name, "list") {
        check_list(schema, data, path, out);
    } else if crate::text::chars_eq_str(&name, "dict") {
        check_dict(schema, data, path, out);
    } else {
        match builtin(&name) {
            Some(base) => {
                let before = out.len();
                let ghost o0 = viols(out@);
                check_shape(base, data, path, out);
                if out.len() == before {
                    proof {
                        assert(viols(out@).len() == out@.len());
                        assert(o0.len() == before);
                    }
                    check_validation_for_scalar(schema, data, base, path, out);
                } else {
                    proof {
                        assert(viols(out@).len() == out@.len());
                        assert(o0.len() == before);
                    }
                }
            },
            None => {
                let msg = msg3("unknown type `", &name, "`");
                push_violation(out, path, &msg);
            },
        }
    }
}

/// Checks `data` against a `type: list` descriptor: a list whose length
/// meets the constraints and whose every item matches the element type.
fn check_list(schema: &Node, data: &Node, path: &Vec<char>, out: &mut Vec<Violation>)
    ensures
        viols(final(out)@) == viols(old(out)@) + check_issues(schema@, data@, CMode::ListDesc, path@),
    decreases schema, 1nat,
{
    match data {
        Node::List(_) => {},
        _ => {
            let msg = mismatch_kind("a list", data);
            push_violation(out, path, &msg);
            return ;
        },
    }
    let ghost o0 = viols(out@);
    check_validation_for_list_or_dict(schema, data, Builtin::List, path, out);
    let ghost o1 = viols(out@);
    if element_node(schema).is_none() {
        push_violation_str(out, path, "type: list requires an `element` key");
    } else {
        check_items(schema, data, path, out);
    }
    proof {
        let a = collection_validation_spec(schema@, data@, Builtin::List, path@);
        let b = viols(out@).skip(o1.len() as int);
        assert(viols(out@) =~= o1 + b);
        assert(viols(out@) =~= o0 + (a + b));
    }
}

/// Checks `data` against a `type: dict` descriptor: a map whose length
/// meets the constraints and, where an `element` is given, whose every
/// value matches it.
fn check_dict(schema: &Node, data: &Node, path: &Vec<char>, out: &mut Vec<Violation>)
    ensures
        viols(final(out)@) == viols(old(out)@) + check_issues(schema@, data@, CMode::DictDesc, path@),
    decreases schema, 1nat,
{
    match data {
        Node::Mapping(_) => {},
        _ => {
            let msg = mismatch_kind("a dict", data);
            push_violation(out, path, &msg);
            return ;
        },
    }
    let ghost o0 = viols(out@);
    check_validation_for_list_or_dict(schema, data, Builtin::Dict, path, out);
    let ghost o1 = viols(out@);
    if element_node(schema).is_some() {
        check_dict_items(schema, data, path, out);
    } else {
        assert(viols(out@) =~= viols(out@) + Seq::<ViolationV>::empty());
    }
    proof {
        let a = collection_validation_spec(schema@, data@, Builtin::Dict, path@);
        let b = viols(out@).skip(o1.len() as int);
        assert(viols(out@) =~= o1 + b);
        assert(viols(out@) =~= o0 + (a + b));
    }
}

/// Checks every item of a data list against the element schema.
fn check_items(schema: &Node, data: &Node, path: &Vec<char>, out: &mut Vec<Violation>)
    ensures
        viols(final(out)@) == viols(old(out)@) + check_issues(schema@, data@, CMode::Items(0), path@),
    decreases schema, 0nat,
{
    assert(viols(old(out)@) =~= viols(old(out)@) + Seq::<ViolationV>::empty());
    let e = match element_node(schema) {
        Some(e) => e,
        None => return ,
    };
    let items = match data {
        Node::List(l) => l,
        _ => return ,
    };
    proof {
        lemma_list_view_pub(data, items);
    }
    let ghost total = check_issues(schema@, data@, CMode::Items(0), path@);
    let mut i: usize = 0;
    while i < items.len()
        invariant
            i <= items@.len(),
            data@ == list_view(items@),
            element_of(schema@) == Some(e@),
            decreases_to!(*schema => *e),
            total == check_issues(schema@, data@, CMode::Items(0), path@),
            viols(old(out)@) + total == viols(out@) + check_issues(schema@, data@, CMode::Items(i as nat), path@),
        decreases items@.len() - i,
    {
        let p = item_path_of(path, i);
        let ghost before = viols(out@);
        check(e, &items[i], &p, out);
        proof {
            let part = check_issues(e@, items@[i as int]@, CMode::Node, p@);
            let rest = check_issues(schema@, data@, CMode::Items((i + 1) as nat), path@);
            assert(check_issues(schema@, data@, CMode::Items(i as nat), path@) == part + rest);
            assert(before + (part + rest) =~= (before + part) + rest);
        }
        i += 1;
    }
    assert(viols(out@) + Seq::<ViolationV>::empty() =~= viols(out@));
}

/// Checks every value of a data dict against the element schema.
fn check_dict_items(schema: &Node, data: &Node, path: &Vec<char>, out: &mut Vec<Violation>)
    ensures
        viols(final(out)@) == viols(old(out)@) + check_issues(schema@, data@, CMode::DictItems(0), path@),
    decreases schema, 0nat,
{
    assert(viols(old(out)@) =~= viols(old(out)@) + Seq::<ViolationV>::empty());
    let e = match element_node(schema) {
        Some(e) => e,
        None => return ,
    };
    let dm = match data {
        Node::Mapping(dm) => dm,
        _ => return ,
    };
    let ghost total = check_issues(schema@, data@, CMode::DictItems(0), path@);
    let mut i: usize = 0;
    while i < dm.len()
        invariant
            i <= dm@.len(),
            data@ == NodeV::Mapping(dm@),
            element_of(schema@) == Some(e@),
            decreases_to!(*schema => *e),
            total == check_issues(schema@, data@, CMode::DictItems(0), path@),
            viols(old(out)@) + total == viols(out@) + check_issues(schema@, data@, CMode::DictItems(i as nat), path@),
        decreases dm@.len() - i,
    {
        let k = chars_of(dm.key_at(i).as_str());
        let p = crate::value::join_path(path, &k);
        let ghost before = viols(out@);
        check(e, dm.node_at(i), &p, out);
        proof {
            let part = check_issues(e@, dm@[i as int].1, CMode::Node, p@);
            let rest = check_issues(schema@, data@, CMode::DictItems((i + 1) as nat), path@);
            assert(check_issues(schema@, data@, CMode::DictItems(i as nat), path@) == part + rest);
            assert(before + (part + rest) =~= (before + part) + rest);
        }
        i += 1;
    }
    assert(viols(out@) + Seq::<ViolationV>::empty() =~= viols(out@));
}

/// Checks the declared entries of a schema map: each must be present in
/// the data (unless optional) and match its schema.
fn check_entries(schema: &Node, data: &Node, path: &Vec<char>, out: &mut Vec<Violation>)
    ensures
        viols(final(out)@) == viols(old(out)@) + check_issues(schema@, data@, CMode::Entries(0), path@),
    decreases schema, 0nat,
{
    assert(viols(old(out)@) =~= viols(old(out)@) + Seq::<ViolationV>::empty());
    let m = match schema {
        Node::Mapping(m) => m,
        _ => return ,
    };
    let dm = match data {
        Node::Mapping(dm) => dm,
        _ => return ,
    };
    let ghost total = check_issues(schema@, data@, CMode::Entries(0), path@);
    let mut k: usize = 0;
    while k < m.len()
        invariant
            k <= m@.len(),
            schema@ == NodeV::Mapping(m@),
            data@ == NodeV::Mapping(dm@),
            decreases_to!(*schema => *m),
            total == check_issues(schema@, data@, CMode::Entries(0), path@),
            viols(old(out)@) + total == viols(out@) + check_issues(schema@, data@, CMode::Entries(k as nat), path@),
        decreases m@.len() - k,
    {
        let key = chars_of(m.key_at(k).as_str());
        let sub = m.node_at(k);
        let p = crate::value::join_path(path, &key);
        let ghost before = viols(out@);
        match dm.find(&key) {
            None => {
                if !optional_leaf(sub) {
                    push_violation_str(out, &p, "missing key");
                } else {
                    assert(viols(out@) =~= viols(out@) + Seq::<ViolationV>::empty());
                }
            },
            Some(j) => {
                check(sub, dm.node_at(j), &p, out);
            },
        }
        proof {
            let rest = check_issues(schema@, data@, CMode::Entries((k + 1) as nat), path@);
            let whole = check_issues(schema@, data@, CMode::Entries(k as nat), path@);
            let part = whole.take(whole.len() - rest.len());
            assert(whole =~= part + rest);
            assert(viols(out@) =~= before + part);
            assert(before + (part + rest) =~= (before + part) + rest);
        }
        k += 1;
    }
    assert(viols(out@) + Seq::<ViolationV>::empty() =~= viols(out@));
}

} // verus!

verus! {

/// A `{}` leaf accepts exactly the maps, whatever they hold; a `[]` leaf
/// accepts exactly the lists, whatever they hold.
pub proof fn lemma_empty_literals_accept_any_contents(data: NodeV, path: Seq<char>)
    ensures
        (check_issues(NodeV::Mapping(Seq::empty()), data, CMode::Node, path).len() == 0) == (data is Mapping),
        (check_issues(NodeV::List(Seq::empty()), data, CMode::Node, path).len() == 0) == (data is List),
{
}

/// A null is accepted under a descriptor map exactly when it is optional;
/// under a required one it is the one violation reported.
pub proof fn lemma_null_needs_optional(schema: NodeV, s: ScalarV, path: Seq<char>)
    requires
        schema is Mapping,
        schema->Mapping_0.len() > 0,
        descriptor_spec(schema) is Some,
        s.shape == Shape::Null,
    ensures
        descriptor_spec(schema) matches Some((_, optional)) && if optional {
            check_issues(schema, NodeV::Scalar(s), CMode::Node, path) == Seq::<ViolationV>::empty()
        } else {
            check_issues(schema, NodeV::Scalar(s), CMode::Node, path) == seq![(path, null_message())]
        },
{
    let data = NodeV::Scalar(s);
    assert(check_issues(schema, data, CMode::Node, path) == check_issues(schema, data, CMode::Descriptor, path));
}

/// A key that a schema map declares as optional may be left out of the
/// data: its absence is not reported. A required key's absence is.
pub proof fn lemma_absent_key(
    m: Seq<(Seq<char>, NodeV)>,
    dm: Seq<(Seq<char>, NodeV)>,
    k: nat,
    path: Seq<char>,
)
    requires
        k < m.len(),
        map_find(dm, m[k as int].0) is None,
    ensures
        check_issues(NodeV::Mapping(m), NodeV::Mapping(dm), CMode::Entries(k), path) == (if is_optional_leaf(
            m[k as int].1,
        ) {
            Seq::<ViolationV>::empty()
        } else {
            seq![(join_path_spec(path, m[k as int].0), "missing key"@)]
        }) + check_issues(NodeV::Mapping(m), NodeV::Mapping(dm), CMode::Entries(k + 1), path),
{
}

} // verus!
