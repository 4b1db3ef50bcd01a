//! Value model: a document is an ordered map of keys to nodes; a node is a
//! scalar, a map, or a list. Maps preserve insertion order. Scalars keep
//! their raw token for provenance; equality ignores it.
use vstd::prelude::*;
use crate::error::{Error, ErrorKind};
use crate::text::{chars_of, extend, extend_str, string_of, chars_eq};
use crate::grammar::{spec_is_int, spec_is_float};

verus! {

/// Shape of a scalar as written. `true`/`false` are shape literals, not
/// reserved words; quoting always yields a string.
#[derive(Debug, Clone, Copy, PartialEq, Eq, Structural)]
pub enum Shape {
    /// Integer literal, e.g. `42`.
    Int,
    /// Floating-point literal, e.g. `0.75` or `1e3`.
    Float,
    /// The bare literals `true`/`false`.
    Bool,
    /// Any quoted or bare string.
    Str,
    /// The bare literal `null`.
    Null,
}

/// The lowercase name of a shape.
pub open spec fn shape_name(s: Shape) -> Seq<char> {
    match s {
        Shape::Int => "int"@,
        Shape::Float => "float"@,
        Shape::Bool => "bool"@,
        Shape::Str => "str"@,
        Shape::Null => "null"@,
    }
}

impl Shape {
    /// The lowercase name of this shape, as used in diagnostics.
    pub fn as_str(self) -> (s: &'static str)
        ensures
            s@ == shape_name(self),
    {
        match self {
            Shape::Int => "int",
            Shape::Float => "float",
            Shape::Bool => "bool",
            Shape::Str => "str",
            Shape::Null => "null",
        }
    }

    /// The display form of this shape: its lowercase name.
    pub fn to_string(self) -> (s: String)
        ensures
            s@ == shape_name(self),
    {
        String::from_str(self.as_str())
    }
}

/// Mathematical form of a scalar.
pub struct ScalarV {
    pub shape: Shape,
    pub text: Seq<char>,
    pub raw: Seq<char>,
}

/// Mathematical form of a node.
pub enum NodeV {
    Scalar(ScalarV),
    Mapping(Seq<(Seq<char>, NodeV)>),
    List(Seq<NodeV>),
}

/// A scalar value with raw-token fidelity.
#[derive(Debug, Clone)]
pub struct Scalar {
    /// Shape as written.
    pub shape: Shape,
    /// Decoded value: unescaped for double-quoted strings, the literal
    /// digits for numbers.
    pub text: String,
    /// The token exactly as written (quotes included for quoted strings).
    /// Provenance only: two scalars are equal when shape and text match.
    pub raw: String,
}

impl Scalar {
    pub open spec fn view(&self) -> ScalarV {
        ScalarV { shape: self.shape, text: self.text@, raw: self.raw@ }
    }

    /// Creates a scalar whose raw token equals its decoded text.
    pub fn new(shape: Shape, text: &str) -> (s: Scalar)
        ensures
            s.shape == shape,
            s.text@ == text@,
            s.raw@ == text@,
    {
        Scalar { shape, text: String::from_str(text), raw: String::from_str(text) }
    }

    /// Creates a scalar with a raw token distinct from its decoded text
    /// (e.g. a quoted string whose raw form includes the quotes).
    pub fn with_raw(shape: Shape, text: &str, raw: &str) -> (s: Scalar)
        ensures
            s.shape == shape,
            s.text@ == text@,
            s.raw@ == raw@,
    {
        Scalar { shape, text: String::from_str(text), raw: String::from_str(raw) }
    }

    /// A copy with the same shape, text and raw token.
    pub fn copy(&self) -> (s: Scalar)
        ensures
            s@ == self@,
    {
        Scalar { shape: self.shape, text: self.text.clone(), raw: self.raw.clone() }
    }
}

/// Semantic equality: the raw spelling is deliberately ignored, and
/// integers compare by value (`1000` equals `1_000`).
impl PartialEq for Scalar {
    fn eq(&self, other: &Self) -> (r: bool) {
        scalar_same(self, other)
    }
}

impl vstd::std_specs::cmp::PartialEqSpecImpl for Scalar {
    open spec fn obeys_eq_spec() -> bool {
        true
    }

    open spec fn eq_spec(&self, other: &Self) -> bool {
        self.shape == other.shape && compared_text(self.shape, self.text@) == compared_text(other.shape, other.text@)
    }
}

impl Eq for Scalar {}

/// Index of the first entry with key `k`, if any.
pub open spec fn map_find(m: Seq<(Seq<char>, NodeV)>, k: Seq<char>) -> Option<int>
    decreases m.len(),
{
    if m.len() == 0 {
        None
    } else if m[0].0 == k {
        Some(0)
    } else {
        match map_find(m.drop_first(), k) {
            Some(i) => Some(i + 1),
            None => None,
        }
    }
}

/// The first index found names an entry with that key, and no earlier
/// entry has it; absence means no entry has it.
pub proof fn lemma_map_find(m: Seq<(Seq<char>, NodeV)>, k: Seq<char>)
    ensures
        map_find(m, k) matches Some(i) ==> 0 <= i < m.len() && m[i].0 == k && forall|j: int|
            0 <= j < i ==> m[j].0 != k,
        map_find(m, k) is None ==> forall|j: int| 0 <= j < m.len() ==> m[j].0 != k,
    decreases m.len(),
{
    if m.len() > 0 && m[0].0 != k {
        lemma_map_find(m.drop_first(), k);
        assert forall|j: int| 1 <= j < m.len() implies m[j].0 == m.drop_first()[j - 1].0 by {}
    }
}

/// An ordered map of keys to nodes (insertion order preserved).
#[derive(Debug)]
pub struct Mapping {
    entries: Vec<(String, Node)>,
}

/// A KVD node: scalar, map, or list.
#[derive(Debug)]
#[non_exhaustive]
pub enum Node {
    /// A scalar value.
    Scalar(Scalar),
    /// An ordered mapping.
    Mapping(Mapping),
    /// An ordered list.
    List(Vec<Node>),
}

impl Mapping {
    pub closed spec fn view(&self) -> Seq<(Seq<char>, NodeV)>
        decreases self,
    {
        Seq::new(
            self.entries.len() as nat,
            |i: int|
                if 0 <= i < self.entries.len() {
                    (self.entries@[i].0@, self.entries@[i].1.view())
                } else {
                    (Seq::empty(), NodeV::List(Seq::empty()))
                },
        )
    }

    /// Creates an empty map.
    pub fn new() -> (m: Mapping)
        ensures
            m@ == Seq::<(Seq<char>, NodeV)>::empty(),
    {
        let m = Mapping { entries: Vec::new() };
        assert(m@ =~= Seq::<(Seq<char>, NodeV)>::empty());
        m
    }

    /// Number of entries.
    pub fn len(&self) -> (n: usize)
        ensures
            n == self@.len(),
    {
        self.entries.len()
    }

    /// True when the map has no entries.
    pub fn is_empty(&self) -> (b: bool)
        ensures
            b == (self@.len() == 0),
    {
        self.entries.len() == 0
    }

    /// The key of entry `i`.
    pub fn key_at(&self, i: usize) -> (k: &String)
        requires
            i < self@.len(),
        ensures
            k@ == self@[i as int].0,
    {
        &self.entries[i].0
    }

    /// The node of entry `i`.
    pub fn node_at(&self, i: usize) -> (n: &Node)
        requires
            i < self@.len(),
        ensures
            n@ == self@[i as int].1,
            decreases_to!(*self => *n),
    {
        proof {
            assert(decreases_to!(self => self.entries));
            assert(decreases_to!(self.entries => self.entries@));
            assert(decreases_to!(self.entries@ => self.entries@[i as int]));
            assert(decreases_to!(self.entries@[i as int] => self.entries@[i as int].1));
        }
        &self.entries[i].1
    }

    /// Index of the first entry with key `key`.
    pub fn find(&self, key: &Vec<char>) -> (r: Option<usize>)
        ensures
            r matches Some(i) ==> map_find(self@, key@) == Some(i as int) && i < self@.len(),
            r is None ==> map_find(self@, key@) is None,
    {
        let mut i: usize = 0;
        while i < self.entries.len()
            invariant
                i <= self.entries.len(),
                self@.len() == self.entries.len(),
                forall|j: int| 0 <= j < i ==> self@[j].0 != key@,
            decreases self.entries.len() - i,
        {
            let k = chars_of(self.entries[i].0.as_str());
            if chars_eq(&k, key) {
                proof {
                    lemma_map_find(self@, key@);
                    lemma_map_find_unique(self@, key@, i as int);
                }
                return Some(i);
            }
            i += 1;
        }
        proof {
            lemma_map_find(self@, key@);
        }
        None
    }

    /// Returns the node stored under `key`, if any.
    pub fn get(&self, key: &str) -> (r: Option<&Node>)
        ensures
            match map_find(self@, key@) {
                Some(i) => r matches Some(n) && n@ == self@[i].1,
                None => r is None,
            },
    {
        let k = chars_of(key);
        assert(self@.len() == self.entries.len());
        match self.find(&k) {
            Some(i) => Some(&self.entries[i].1),
            None => None,
        }
    }

    /// Returns a mutable reference to the node stored under `key`, if any.
    pub fn get_mut(&mut self, key: &str) -> (r: Option<&mut Node>)
        ensures
            match map_find(old(self)@, key@) {
                Some(i) => r matches Some(n) && (*n)@ == old(self)@[i].1 && final(self)@ =~= old(
                    self,
                )@.update(i, (key@, (*final(n))@)),
                None => r is None && final(self)@ == old(self)@,
            },
    {
        let k = chars_of(key);
        assert(self@.len() == self.entries.len());
        match self.find(&k) {
            Some(i) => {
                proof {
                    lemma_map_find(self@, key@);
                }
                Some(self.node_mut_at(i))
            },
            None => None,
        }
    }

    /// A mutable reference to the node of entry `i`.
    pub fn node_mut_at(&mut self, i: usize) -> (n: &mut Node)
        requires
            i < old(self)@.len(),
        ensures
            (*n)@ == old(self)@[i as int].1,
            final(self)@ =~= old(self)@.update(i as int, (old(self)@[i as int].0, (*final(n))@)),
    {
        assert(self@.len() == self.entries.len());
        let e = self.entries_mut_at(i);
        &mut e.1
    }

    fn entries_mut_at(&mut self, i: usize) -> (e: &mut (String, Node))
        requires
            i < old(self).entries@.len(),
        ensures
            *e == old(self).entries@[i as int],
            final(self).entries@ == old(self).entries@.update(i as int, *final(e)),
    {
        &mut self.entries[i]
    }

    /// True when `key` is present.
    pub fn contains_key(&self, key: &str) -> (b: bool)
        ensures
            b == map_find(self@, key@) is Some,
    {
        let k = chars_of(key);
        self.find(&k).is_some()
    }

    /// Appends a key/value pair. Duplicate detection is the parser's job,
    /// so this does not check.
    pub fn insert(&mut self, key: String, value: Node)
        ensures
            final(self)@ == old(self)@.push((key@, value@)),
    {
        self.entries.push((key, value));
        assert(self@ =~= old(self)@.push((key@, value@)));
    }

    /// Removes the entry at `index`, returning its key and node.
    pub fn remove_at(&mut self, index: usize) -> (r: (String, Node))
        requires
            index < old(self)@.len(),
        ensures
            r.0@ == old(self)@[index as int].0,
            r.1@ == old(self)@[index as int].1,
            final(self)@ == old(self)@.remove(index as int),
    {
        let r = self.entries.remove(index);
        assert(self@ =~= old(self)@.remove(index as int));
        r
    }

    /// Replaces the node of entry `index`.
    pub fn set_node_at(&mut self, index: usize, value: Node)
        requires
            index < old(self)@.len(),
        ensures
            final(self)@ == old(self)@.update(index as int, (old(self)@[index as int].0, value@)),
    {
        let k = self.entries[index].0.clone();
        self.entries.set(index, (k, value));
        assert(self@ =~= old(self)@.update(index as int, (old(self)@[index as int].0, value@)));
    }

    /// All entries as `(key, node)` pairs in insertion order.
    pub fn iter(&self) -> (r: Vec<(&str, &Node)>)
        ensures
            r@.len() == self@.len(),
            forall|i: int| 0 <= i < r@.len() ==> (#[trigger] r@[i]).0@ == self@[i].0 && r@[i].1@
                == self@[i].1,
    {
        let mut r: Vec<(&str, &Node)> = Vec::new();
        let mut i: usize = 0;
        while i < self.entries.len()
            invariant
                i <= self.entries.len(),
                self@.len() == self.entries.len(),
                r@.len() == i,
                forall|j: int| 0 <= j < i ==> (#[trigger] r@[j]).0@ == self@[j].0 && r@[j].1@
                    == self@[j].1,
            decreases self.entries.len() - i,
        {
            r.push((self.entries[i].0.as_str(), &self.entries[i].1));
            i += 1;
        }
        r
    }

    /// Borrows all entries as `(key, node)` pairs in insertion order.
    pub fn entries(&self) -> (r: &[(String, Node)])
        ensures
            r@.len() == self@.len(),
            forall|i: int| 0 <= i < r@.len() ==> (#[trigger] r@[i]).0@ == self@[i].0 && r@[i].1@
                == self@[i].1,
    {
        self.entries.as_slice()
    }

    /// Consumes the map, yielding its owned `(key, node)` pairs in order.
    pub fn into_entries(self) -> (r: Vec<(String, Node)>)
        ensures
            r@.len() == self@.len(),
            forall|i: int| 0 <= i < r@.len() ==> (#[trigger] r@[i]).0@ == self@[i].0 && r@[i].1@
                == self@[i].1,
    {
        self.entries
    }
}

/// `map_find` names the first entry with the key.
pub proof fn lemma_map_find_unique(m: Seq<(Seq<char>, NodeV)>, k: Seq<char>, i: int)
    requires
        0 <= i < m.len(),
        m[i].0 == k,
        forall|j: int| 0 <= j < i ==> m[j].0 != k,
    ensures
        map_find(m, k) == Some(i),
    decreases i,
{
    if i > 0 {
        lemma_map_find_unique(m.drop_first(), k, i - 1);
    }
}

impl Mapping {
    /// A deep copy of this map.
    pub fn copy(&self) -> (m: Mapping)
        ensures
            m@ == self@,
        decreases self,
    {
        let mut entries: Vec<(String, Node)> = Vec::new();
        let mut i: usize = 0;
        while i < self.entries.len()
            invariant
                i <= self.entries.len(),
                self@.len() == self.entries.len(),
                entries@.len() == i,
                forall|j: int|
                    0 <= j < i ==> (#[trigger] entries@[j]).0@ == self@[j].0 && entries@[j].1@
                        == self@[j].1,
            decreases self.entries.len() - i,
        {
            let k = self.entries[i].0.clone();
            proof {
                assert(decreases_to!(self => self.entries));
                assert(decreases_to!(self.entries => self.entries@));
                assert(decreases_to!(self.entries@ => self.entries@[i as int]));
                assert(decreases_to!(self.entries@[i as int] => self.entries@[i as int].1));
            }
            let n = self.entries[i].1.copy();
            entries.push((k, n));
            i += 1;
        }
        let m = Mapping { entries };
        assert(m@ =~= self@);
        m
    }
}

impl Clone for Mapping {
    fn clone(&self) -> (m: Mapping)
        ensures
            m@ == self@,
    {
        self.copy()
    }
}

impl Node {
    /// A deep copy of this node.
    pub fn copy(&self) -> (n: Node)
        ensures
            n@ == self@,
        decreases self,
    {
        match self {
            Node::Scalar(s) => {
                let c = s.copy();
                let r = Node::Scalar(c);
                assert(r@ == NodeV::Scalar(c@));
                assert(self@ == NodeV::Scalar(s@));
                r
            },
            Node::Mapping(m) => Node::Mapping(m.copy()),
            Node::List(v) => {
                let items = copy_list(v);
                let n = Node::List(items);
                assert(n@->List_0 =~= self@->List_0);
                n
            },
        }
    }
}

/// A deep copy of a list of nodes.
fn copy_list(v: &Vec<Node>) -> (items: Vec<Node>)
    ensures
        items@.len() == v@.len(),
        forall|j: int| 0 <= j < v@.len() ==> (#[trigger] items@[j])@ == v@[j]@,
    decreases v,
{
    let mut items: Vec<Node> = Vec::new();
    let mut i: usize = 0;
    while i < v.len()
        invariant
            i <= v.len(),
            items@.len() == i,
            forall|j: int| 0 <= j < i ==> (#[trigger] items@[j])@ == v@[j]@,
        decreases v.len() - i,
    {
        proof {
            assert(decreases_to!(v => v@[i as int]));
        }
        items.push(v[i].copy());
        i += 1;
    }
    items
}

impl Clone for Node {
    fn clone(&self) -> (n: Node)
        ensures
            n@ == self@,
    {
        self.copy()
    }
}

impl Node {
    pub open spec fn view(&self) -> NodeV
        decreases self,
    {
        match self {
            Node::Scalar(s) => NodeV::Scalar(s@),
            Node::Mapping(m) => NodeV::Mapping(m@),
            Node::List(v) => NodeV::List(
                Seq::new(
                    v.len() as nat,
                    |i: int| if 0 <= i < v.len() { v@[i].view() } else { NodeV::List(Seq::empty()) },
                ),
            ),
        }
    }
}

} // verus!

verus! {

/// A node with every scalar's raw token dropped: the part of a node that
/// equality compares.
pub open spec fn erase(n: NodeV) -> NodeV
    decreases n,
{
    match n {
        NodeV::Scalar(s) => NodeV::Scalar(ScalarV { shape: s.shape, text: s.text, raw: Seq::empty() }),
        NodeV::Mapping(m) => NodeV::Mapping(
            Seq::new(
                m.len(),
                |i: int| if 0 <= i < m.len() { (m[i].0, erase(m[i].1)) } else { (Seq::empty(), NodeV::List(Seq::empty())) },
            ),
        ),
        NodeV::List(l) => NodeV::List(
            Seq::new(l.len(), |i: int| if 0 <= i < l.len() { erase(l[i]) } else { NodeV::List(Seq::empty()) }),
        ),
    }
}

/// A scalar's text as equality compares it: an integer by its sign and
/// digits, without `_`, any other text as it stands.
pub open spec fn compared_text(shape: Shape, text: Seq<char>) -> Seq<char> {
    if shape == Shape::Int {
        crate::serialize::without_underscores(text)
    } else {
        text
    }
}

/// A node as equality compares it: raw tokens dropped and integers
/// without their digit-group separators, so that `1000` and `1_000` are
/// the same value.
pub open spec fn compared(n: NodeV) -> NodeV
    decreases n,
{
    match n {
        NodeV::Scalar(s) => NodeV::Scalar(ScalarV { shape: s.shape, text: compared_text(s.shape, s.text), raw: Seq::empty() }),
        NodeV::Mapping(m) => NodeV::Mapping(
            Seq::new(
                m.len(),
                |i: int| if 0 <= i < m.len() { (m[i].0, compared(m[i].1)) } else { (Seq::empty(), NodeV::List(Seq::empty())) },
            ),
        ),
        NodeV::List(l) => NodeV::List(
            Seq::new(l.len(), |i: int| if 0 <= i < l.len() { compared(l[i]) } else { NodeV::List(Seq::empty()) }),
        ),
    }
}

/// How a node that is not a map is described in navigation errors.
pub open spec fn non_map_kind(n: NodeV) -> Seq<char> {
    match n {
        NodeV::Scalar(s) => "a scalar ("@ + shape_name(s.shape) + ")"@,
        NodeV::List(_) => "a list"@,
        NodeV::Mapping(_) => "a map"@,
    }
}

/// Joins a path prefix with one more key using the dotted convention.
pub open spec fn join_path_spec(prefix: Seq<char>, key: Seq<char>) -> Seq<char> {
    if prefix.len() == 0 {
        key
    } else {
        prefix + "."@ + key
    }
}

/// Strict one-step navigation: the child under `key`, or the category and
/// message of the failure.
pub open spec fn get_spec(n: NodeV, key: Seq<char>) -> Result<NodeV, (ErrorKind, Seq<char>)> {
    match n {
        NodeV::Mapping(m) => match map_find(m, key) {
            Some(i) => Ok(m[i].1),
            None => Err((ErrorKind::KeyNotFound, "key `"@ + key + "` not found"@)),
        },
        _ => Err(
            (
                ErrorKind::NotAMap,
                "cannot index `"@ + key + "` into a non-map node ("@ + non_map_kind(n) + ")"@,
            ),
        ),
    }
}

/// Navigation along a key path; errors name the full chain walked so far.
pub open spec fn path_spec(n: NodeV, path: Seq<Seq<char>>, prefix: Seq<char>) -> Result<
    NodeV,
    (ErrorKind, Seq<char>),
>
    decreases path.len(),
{
    if path.len() == 0 {
        Ok(n)
    } else {
        let key = path[0];
        let here = join_path_spec(prefix, key);
        match n {
            NodeV::Mapping(m) => match map_find(m, key) {
                Some(i) => path_spec(m[i].1, path.drop_first(), here),
                None => Err((ErrorKind::KeyNotFound, here + ": key not found"@)),
            },
            _ => Err(
                (
                    ErrorKind::NotAMap,
                    (if prefix.len() == 0 {
                        "root"@
                    } else {
                        prefix
                    }) + " is "@ + non_map_kind(n) + "; cannot index `"@ + key + "`"@,
                ),
            ),
        }
    }
}

/// The node reached by replacing the target of a successful key-path
/// navigation with `v`.
pub open spec fn path_replace(n: NodeV, path: Seq<Seq<char>>, v: NodeV) -> NodeV
    decreases path.len(),
{
    if path.len() == 0 {
        v
    } else {
        match n {
            NodeV::Mapping(m) => match map_find(m, path[0]) {
                Some(i) => NodeV::Mapping(
                    m.update(i, (m[i].0, path_replace(m[i].1, path.drop_first(), v))),
                ),
                None => n,
            },
            _ => n,
        }
    }
}

/// `s` split at every `.` (as `str::split('.')` does: empty pieces kept).
pub open spec fn split_dots(s: Seq<char>) -> Seq<Seq<char>>
    decreases s.len(),
{
    let k = crate::grammar::index_of_either(s, '.', '.');
    if k >= s.len() {
        seq![s]
    } else {
        proof {
            crate::grammar::lemma_index_of_either_bounds(s, '.', '.');
        }
        seq![s.take(k)] + split_dots(s.skip(k + 1))
    }
}

/// Pieces joined with a `.` between each two.
pub open spec fn join_dots(p: Seq<Seq<char>>) -> Seq<char>
    decreases p.len(),
{
    if p.len() == 0 {
        Seq::empty()
    } else if p.len() == 1 {
        p[0]
    } else {
        p[0] + seq!['.'] + join_dots(p.drop_first())
    }
}

/// `split_dots` splits a text at every `.`, as `str::split('.')` does: its
/// pieces, none of which holds a `.`, joined with `.` between them give
/// back the text (the two facts fix the pieces, empty ones included).
pub proof fn lemma_split_dots_splits(s: Seq<char>)
    ensures
        split_dots(s).len() >= 1,
        join_dots(split_dots(s)) == s,
        forall|i: int| 0 <= i < split_dots(s).len() ==> !(#[trigger] split_dots(s)[i]).contains('.'),
    decreases s.len(),
{
    let k = crate::grammar::index_of_either(s, '.', '.');
    crate::grammar::lemma_index_of_either_bounds(s, '.', '.');
    if k >= s.len() {
        assert(split_dots(s) == seq![s]);
        assert(!s.contains('.')) by {
            if s.contains('.') {
                let j = choose|j: int| 0 <= j < s.len() && s[j] == '.';
                assert(s[j] != '.');
            }
        }
    } else {
        let t = s.skip(k + 1);
        lemma_split_dots_splits(t);
        let p = split_dots(s);
        assert(p == seq![s.take(k)] + split_dots(t));
        assert(p.drop_first() =~= split_dots(t));
        assert(p[0] == s.take(k));
        assert(join_dots(p) == s.take(k) + seq!['.'] + join_dots(split_dots(t)));
        assert(s =~= s.take(k) + seq!['.'] + t);
        assert forall|i: int| 0 <= i < p.len() implies !(#[trigger] p[i]).contains('.') by {
            if i == 0 {
                if p[0].contains('.') {
                    let j = choose|j: int| 0 <= j < p[0].len() && p[0][j] == '.';
                    assert(s[j] == '.');
                }
            } else {
                assert(p[i] == split_dots(t)[i - 1]);
            }
        }
    }
}

/// The views of a list of character vectors.
pub open spec fn views_of(p: Seq<Vec<char>>) -> Seq<Seq<char>> {
    Seq::new(p.len(), |i: int| p[i]@)
}

/// The views of a list of string slices.
pub open spec fn str_views(p: Seq<&str>) -> Seq<Seq<char>> {
    Seq::new(p.len(), |i: int| p[i]@)
}

/// Whether a `Result` of navigation matches its specification (errors
/// carry position 0:0).
pub open spec fn nav_result_matches(r: Result<&Node, Error>, s: Result<NodeV, (ErrorKind, Seq<char>)>) -> bool {
    match s {
        Ok(t) => r matches Ok(n) && n@ == t,
        Err((k, msg)) => r matches Err(e) && e.kind == k && e.line == 0 && e.col == 0 && e.message@ == msg,
    }
}

/// Joins a path prefix with one more key.
pub fn join_path(prefix: &Vec<char>, key: &Vec<char>) -> (r: Vec<char>)
    ensures
        r@ == join_path_spec(prefix@, key@),
{
    if prefix.len() == 0 {
        let mut r: Vec<char> = Vec::new();
        extend(&mut r, key);
        assert(r@ =~= key@);
        r
    } else {
        let mut r: Vec<char> = Vec::new();
        extend(&mut r, prefix);
        extend_str(&mut r, ".");
        extend(&mut r, key);
        r
    }
}

/// Describes a node that was indexed as a map but is not one.
pub fn non_map_kind_of(node: &Node) -> (r: Vec<char>)
    ensures
        r@ == non_map_kind(node@),
{
    let mut r: Vec<char> = Vec::new();
    match node {
        Node::Scalar(s) => {
            extend_str(&mut r, "a scalar (");
            extend_str(&mut r, s.shape.as_str());
            extend_str(&mut r, ")");
        },
        Node::List(_) => {
            extend_str(&mut r, "a list");
        },
        Node::Mapping(_) => {
            extend_str(&mut r, "a map");
        },
    }
    r
}

/// Splits `s` at every `.`, keeping empty pieces.
pub fn split_on_dots(s: &Vec<char>) -> (r: Vec<Vec<char>>)
    ensures
        views_of(r@) == split_dots(s@),
{
    let mut r: Vec<Vec<char>> = Vec::new();
    let mut start: usize = 0;
    let ghost s0 = s@;
    assert(views_of(r@) =~= Seq::<Seq<char>>::empty());
    assert(s@.skip(0) =~= s@);
    loop
        invariant
            start <= s@.len(),
            s@ == s0,
            views_of(r@) + split_dots(s@.skip(start as int)) == split_dots(s0),
        decreases s@.len() - start,
    {
        let k = crate::grammar::find_either(s, start, s.len(), '.', '.');
        proof {
            assert(s@.subrange(start as int, s@.len() as int) =~= s@.skip(start as int));
            crate::grammar::lemma_index_of_either_bounds(s@.skip(start as int), '.', '.');
        }
        let mut piece: Vec<char> = Vec::new();
        crate::text::extend_range(&mut piece, s, start, k);
        let ghost before = views_of(r@);
        r.push(piece);
        let ghost t = s@.skip(start as int);
        assert(views_of(r@) =~= before.push(piece@));
        if k == s.len() {
            assert(piece@ =~= t);
            assert(split_dots(t) == seq![t]);
            assert(before + seq![t] =~= before.push(t));
            return r;
        }
        assert(piece@ =~= t.take(k - start));
        assert(t.skip(k - start + 1) =~= s@.skip(k + 1));
        assert(split_dots(t) == seq![t.take(k - start)] + split_dots(t.skip(k - start + 1)));
        assert(before.push(piece@) + split_dots(s@.skip(k + 1)) =~= before + split_dots(t));
        start = k + 1;
    }
}

impl Node {
    /// Creates a scalar node.
    pub fn scalar(shape: Shape, text: &str) -> (n: Node)
        ensures
            n@ == NodeV::Scalar(ScalarV { shape, text: text@, raw: text@ }),
    {
        Node::Scalar(Scalar::new(shape, text))
    }

    /// Creates a map node.
    pub fn map(map: Mapping) -> (n: Node)
        ensures
            n@ == NodeV::Mapping(map@),
    {
        Node::Mapping(map)
    }

    /// Creates a list node.
    pub fn list(items: Vec<Node>) -> (n: Node)
        ensures
            n is List,
            n@ == NodeV::List(Seq::new(items@.len(), |i: int| items@[i]@)),
    {
        let n = Node::List(items);
        assert(n@->List_0 =~= Seq::new(items@.len(), |i: int| items@[i]@));
        n
    }

    /// Borrows this node as a scalar, if it is one.
    pub fn as_scalar(&self) -> (r: Option<&Scalar>)
        ensures
            match self@ {
                NodeV::Scalar(s) => r matches Some(x) && x@ == s,
                _ => r is None,
            },
    {
        match self {
            Node::Scalar(s) => Some(s),
            _ => None,
        }
    }

    /// Borrows this node mutably as a scalar, if it is one.
    pub fn as_scalar_mut(&mut self) -> (r: Option<&mut Scalar>)
        ensures
            match old(self)@ {
                NodeV::Scalar(s) => r matches Some(x) && (*x)@ == s && (*final(self))@ == NodeV::Scalar(
                    (*final(x))@,
                ),
                _ => r is None && (*final(self))@ == old(self)@,
            },
    {
        match self {
            Node::Scalar(s) => Some(s),
            _ => None,
        }
    }

    /// Borrows this node as a map, if it is one.
    pub fn as_map(&self) -> (r: Option<&Mapping>)
        ensures
            match self@ {
                NodeV::Mapping(m) => r matches Some(x) && x@ == m,
                _ => r is None,
            },
    {
        match self {
            Node::Mapping(m) => Some(m),
            _ => None,
        }
    }

    /// Borrows this node mutably as a map, if it is one.
    pub fn as_map_mut(&mut self) -> (r: Option<&mut Mapping>)
        ensures
            match old(self)@ {
                NodeV::Mapping(m) => r matches Some(x) && (*x)@ == m && (*final(self))@
                    == NodeV::Mapping((*final(x))@),
                _ => r is None && (*final(self))@ == old(self)@,
            },
    {
        match self {
            Node::Mapping(m) => Some(m),
            _ => None,
        }
    }

    /// Borrows this node as a list, if it is one.
    pub fn as_list(&self) -> (r: Option<&[Node]>)
        ensures
            match self@ {
                NodeV::List(l) => r matches Some(x) && x@.len() == l.len() && forall|i: int|
                    0 <= i < l.len() ==> (#[trigger] x@[i])@ == l[i],
                _ => r is None,
            },
    {
        match self {
            Node::List(l) => Some(l.as_slice()),
            _ => None,
        }
    }

    /// Borrows this node mutably as a list, if it is one.
    pub fn as_list_mut(&mut self) -> (r: Option<&mut Vec<Node>>)
        ensures
            match old(self)@ {
                NodeV::List(l) => r matches Some(x) && (*x)@.len() == l.len() && (forall|i: int|
                    0 <= i < l.len() ==> (#[trigger] (*x)@[i])@ == l[i]) && *final(self)
                    == Node::List(*final(x)),
                _ => r is None && (*final(self))@ == old(self)@,
            },
    {
        match self {
            Node::List(l) => Some(l),
            _ => None,
        }
    }

    /// Navigates this node as a map and returns the child for `key`.
    /// Errors with `NotAMap` when this node is not a map and with
    /// `KeyNotFound` when `key` is absent.
    pub fn get(&self, key: &str) -> (r: Result<&Node, Error>)
        ensures
            nav_result_matches(r, get_spec(self@, key@)),
    {
        let k = chars_of(key);
        match self {
            Node::Mapping(m) => match m.find(&k) {
                Some(i) => Ok(m.node_at(i)),
                None => {
                    let mut msg: Vec<char> = Vec::new();
                    extend_str(&mut msg, "key `");
                    extend(&mut msg, &k);
                    extend_str(&mut msg, "` not found");
                    Err(Error::from_chars(ErrorKind::KeyNotFound, 0, 0, &msg))
                },
            },
            _ => {
                let mut msg: Vec<char> = Vec::new();
                extend_str(&mut msg, "cannot index `");
                extend(&mut msg, &k);
                extend_str(&mut msg, "` into a non-map node (");
                let kind = non_map_kind_of(self);
                extend(&mut msg, &kind);
                extend_str(&mut msg, ")");
                Err(Error::from_chars(ErrorKind::NotAMap, 0, 0, &msg))
            },
        }
    }

    /// Like `get`, but `None` when the node is not a map or the key is
    /// absent.
    pub fn get_opt(&self, key: &str) -> (r: Option<&Node>)
        ensures
            match get_spec(self@, key@) {
                Ok(t) => r matches Some(n) && n@ == t,
                Err(_) => r is None,
            },
    {
        match self.as_map() {
            Some(m) => m.get(key),
            None => None,
        }
    }

    /// Mutable counterpart of `get`.
    pub fn get_mut(&mut self, key: &str) -> (r: Result<&mut Node, Error>)
        ensures
            match old(self)@ {
                NodeV::Mapping(m) => match map_find(m, key@) {
                    Some(i) => r matches Ok(n) && (*n)@ == m[i].1 && (*final(self))@
                        == NodeV::Mapping(m.update(i, (m[i].0, (*final(n))@))),
                    None => r matches Err(e) && e.kind == ErrorKind::KeyNotFound && e.line == 0
                        && e.col == 0 && e.message@ == "key `"@ + key@ + "` not found"@
                        && (*final(self))@ == old(self)@,
                },
                _ => r matches Err(e) && e.kind == ErrorKind::NotAMap && e.line == 0 && e.col == 0
                    && e.message@ == "node is not a map; cannot index by key"@ && (*final(self))@
                    == old(self)@,
            },
    {
        match self {
            Node::Mapping(m) => {
                let k = chars_of(key);
                match m.find(&k) {
                    Some(i) => {
                        proof {
                            lemma_map_find(m@, key@);
                        }
                        Ok(m.node_mut_at(i))
                    },
                    None => {
                        let mut msg: Vec<char> = Vec::new();
                        extend_str(&mut msg, "key `");
                        extend(&mut msg, &k);
                        extend_str(&mut msg, "` not found");
                        Err(Error::from_chars(ErrorKind::KeyNotFound, 0, 0, &msg))
                    },
                }
            },
            _ => Err(Error::new(ErrorKind::NotAMap, 0, 0, "node is not a map; cannot index by key")),
        }
    }

    /// Mutable counterpart of `get_opt`.
    pub fn get_opt_mut(&mut self, key: &str) -> (r: Option<&mut Node>)
        ensures
            match old(self)@ {
                NodeV::Mapping(m) => match map_find(m, key@) {
                    Some(i) => r matches Some(n) && (*n)@ == m[i].1 && (*final(self))@
                        == NodeV::Mapping(m.update(i, (m[i].0, (*final(n))@))),
                    None => r is None && (*final(self))@ == old(self)@,
                },
                _ => r is None && (*final(self))@ == old(self)@,
            },
    {
        match self {
            Node::Mapping(m) => {
                let k = chars_of(key);
                match m.find(&k) {
                    Some(i) => {
                        proof {
                            lemma_map_find(m@, key@);
                        }
                        Some(m.node_mut_at(i))
                    },
                    None => None,
                }
            },
            _ => None,
        }
    }
}

} // verus!

verus! {

/// Whether two scalars have the same shape and text, integers compared
/// without their `_` separators.
pub fn scalar_same(x: &Scalar, y: &Scalar) -> (r: bool)
    ensures
        r == (x.shape == y.shape && compared_text(x.shape, x.text@) == compared_text(y.shape, y.text@)),
{
    if x.shape != y.shape {
        return false;
    }
    match x.shape {
        Shape::Int => {
            let a = crate::serialize::remove_underscores(&crate::text::chars_of(x.text.as_str()));
            let b = crate::serialize::remove_underscores(&crate::text::chars_of(y.text.as_str()));
            assert(a@.subrange(0, a@.len() as int) =~= a@);
            crate::text::range_eq(&a, 0, a.len(), &b)
        },
        _ => x.text == y.text,
    }
}

/// Semantic equality of nodes: structure, keys, shapes and texts agree,
/// integers by value; raw tokens are ignored.
pub fn node_eq(a: &Node, b: &Node) -> (r: bool)
    ensures
        r == (compared(a@) == compared(b@)),
    decreases a,
{
    match (a, b) {
        (Node::Scalar(x), Node::Scalar(y)) => {
            let r = scalar_same(x, y);
            proof {
                if !r {
                    assert(compared(a@)->Scalar_0 != compared(b@)->Scalar_0);
                }
            }
            r
        },
        (Node::Mapping(x), Node::Mapping(y)) => {
            proof {
                assert(decreases_to!(a => x));
            }
            mapping_eq(x, y)
        },
        (Node::List(x), Node::List(y)) => {
            let r = list_eq(x, y);
            proof {
                if r {
                    assert forall|j: int| 0 <= j < x@.len() implies compared(a@)->List_0[j] == compared(b@)->List_0[j] by {
                        assert(a@->List_0[j] == x@[j]@);
                        assert(b@->List_0[j] == y@[j]@);
                        assert(compared(a@)->List_0[j] == compared(x@[j]@));
                        assert(compared(b@)->List_0[j] == compared(y@[j]@));
                    }
                    assert(compared(a@)->List_0 =~= compared(b@)->List_0);
                } else if x@.len() == y@.len() {
                    let j = choose|j: int| 0 <= j < x@.len() && compared(x@[j]@) != compared(y@[j]@);
                    assert(compared(a@)->List_0[j] != compared(b@)->List_0[j]);
                } else {
                    assert(compared(a@)->List_0.len() != compared(b@)->List_0.len());
                }
            }
            r
        },
        (Node::Scalar(_), _) => {
            false
        },
        (Node::Mapping(_), _) => {
            false
        },
        (Node::List(_), _) => {
            false
        },
    }
}

/// Element-wise semantic equality of two node lists.
fn list_eq(x: &Vec<Node>, y: &Vec<Node>) -> (r: bool)
    ensures
        r == (x@.len() == y@.len() && forall|j: int|
            0 <= j < x@.len() ==> compared(#[trigger] x@[j]@) == compared(y@[j]@)),
    decreases x,
{
    if x.len() != y.len() {
        return false;
    }
    let mut i: usize = 0;
    while i < x.len()
        invariant
            i <= x.len(),
            x.len() == y.len(),
            forall|j: int| 0 <= j < i ==> compared(#[trigger] x@[j]@) == compared(y@[j]@),
        decreases x.len() - i,
    {
        proof {
            assert(decreases_to!(x => x@[i as int]));
        }
        if !node_eq(&x[i], &y[i]) {
            return false;
        }
        i += 1;
    }
    true
}

/// Semantic equality of maps: same keys in the same order, semantically
/// equal nodes.
pub fn mapping_eq(x: &Mapping, y: &Mapping) -> (r: bool)
    ensures
        r == (compared(NodeV::Mapping(x@)) == compared(NodeV::Mapping(y@))),
    decreases x,
{
    let ghost ex = compared(NodeV::Mapping(x@));
    let ghost ey = compared(NodeV::Mapping(y@));
    if x.entries.len() != y.entries.len() {
        assert(ex->Mapping_0.len() != ey->Mapping_0.len());
        return false;
    }
    let mut i: usize = 0;
    while i < x.entries.len()
        invariant
            i <= x.entries.len(),
            x.entries.len() == y.entries.len(),
            x@.len() == x.entries.len(),
            y@.len() == y.entries.len(),
            ex == compared(NodeV::Mapping(x@)),
            ey == compared(NodeV::Mapping(y@)),
            forall|j: int| 0 <= j < i ==> #[trigger] ex->Mapping_0[j] == ey->Mapping_0[j],
        decreases x.entries.len() - i,
    {
        if x.entries[i].0 != y.entries[i].0 {
            assert(ex->Mapping_0[i as int].0 != ey->Mapping_0[i as int].0);
            return false;
        }
        proof {
            assert(decreases_to!(x => x.entries));
            assert(decreases_to!(x.entries => x.entries@));
            assert(decreases_to!(x.entries@ => x.entries@[i as int]));
            assert(decreases_to!(x.entries@[i as int] => x.entries@[i as int].1));
        }
        if !node_eq(&x.entries[i].1, &y.entries[i].1) {
            assert(ex->Mapping_0[i as int].1 != ey->Mapping_0[i as int].1);
            return false;
        }
        i += 1;
    }
    assert(ex->Mapping_0 =~= ey->Mapping_0);
    true
}

/// Whether every integer of a node has a spelling.
pub fn node_spellable(n: &Node) -> (r: bool)
    ensures
        r == crate::serialize::ints_spellable(n@),
    decreases n,
{
    match n {
        Node::Scalar(s) => match s.shape {
            Shape::Int => crate::serialize::int_spellable(s.text.as_str()),
            _ => true,
        },
        Node::Mapping(x) => {
            proof {
                assert(decreases_to!(n => x));
            }
            mapping_spellable(x)
        },
        Node::List(x) => {
            proof {
                crate::serialize::lemma_list_view_pub(n, x);
            }
            let mut i: usize = 0;
            while i < x.len()
                invariant
                    i <= x.len(),
                    *n == Node::List(*x),
                    n@ == crate::serialize::list_view(x@),
                    forall|j: int| 0 <= j < i ==> crate::serialize::ints_spellable(#[trigger] x@[j]@),
                decreases x.len() - i,
            {
                proof {
                    assert(decreases_to!(n => x));
                    assert(decreases_to!(x => x@[i as int]));
                }
                if !node_spellable(&x[i]) {
                    assert(n@->List_0[i as int] == x@[i as int]@);
                    return false;
                }
                i += 1;
            }
            proof {
                assert forall|j: int| 0 <= j < n@->List_0.len() implies crate::serialize::ints_spellable(
                    #[trigger] n@->List_0[j],
                ) by {
                    assert(n@->List_0[j] == x@[j]@);
                }
            }
            true
        },
    }
}

/// Whether every integer of a map has a spelling.
fn mapping_spellable(x: &Mapping) -> (r: bool)
    ensures
        r == crate::serialize::ints_spellable(NodeV::Mapping(x@)),
    decreases x,
{
    let ghost n = NodeV::Mapping(x@);
    let mut i: usize = 0;
    while i < x.entries.len()
        invariant
            i <= x.entries.len(),
            x@.len() == x.entries.len(),
            n == NodeV::Mapping(x@),
            forall|j: int| 0 <= j < i ==> crate::serialize::ints_spellable(#[trigger] x@[j].1),
        decreases x.entries.len() - i,
    {
        proof {
            assert(decreases_to!(x => x.entries));
            assert(decreases_to!(x.entries => x.entries@));
            assert(decreases_to!(x.entries@ => x.entries@[i as int]));
            assert(decreases_to!(x.entries@[i as int] => x.entries@[i as int].1));
        }
        if !node_spellable(&x.entries[i].1) {
            assert(x@[i as int].1 == x.entries@[i as int].1@);
            assert(n->Mapping_0[i as int] == x@[i as int]);
            assert(!crate::serialize::ints_spellable(n->Mapping_0[i as int].1));
            assert(!crate::serialize::ints_spellable(n));
            return false;
        }
        assert(x@[i as int].1 == x.entries@[i as int].1@);
        i += 1;
    }
    proof {
        assert forall|j: int| 0 <= j < n->Mapping_0.len() implies crate::serialize::ints_spellable(
            #[trigger] n->Mapping_0[j].1,
        ) by {
            assert(n->Mapping_0[j] == x@[j]);
        }
        assert(crate::serialize::ints_spellable(n));
    }
    true
}

/// Structural equality ignoring raw tokens.
impl PartialEq for Node {
    fn eq(&self, other: &Self) -> (r: bool) {
        node_eq(self, other)
    }
}

impl vstd::std_specs::cmp::PartialEqSpecImpl for Node {
    open spec fn obeys_eq_spec() -> bool {
        true
    }

    open spec fn eq_spec(&self, other: &Self) -> bool {
        compared(self@) == compared(other@)
    }
}

impl Eq for Node {}

/// Entry-wise equality ignoring raw tokens.
impl PartialEq for Mapping {
    fn eq(&self, other: &Self) -> (r: bool) {
        mapping_eq(self, other)
    }
}

impl vstd::std_specs::cmp::PartialEqSpecImpl for Mapping {
    open spec fn obeys_eq_spec() -> bool {
        true
    }

    open spec fn eq_spec(&self, other: &Self) -> bool {
        compared(NodeV::Mapping(self@)) == compared(NodeV::Mapping(other@))
    }
}

impl Eq for Mapping {}

impl Default for Mapping {
    fn default() -> (m: Mapping)
        ensures
            m@ == Seq::<(Seq<char>, NodeV)>::empty(),
    {
        Mapping::new()
    }
}

} // verus!

verus! {

/// The characters of each string slice of `path`.
fn segments_of(path: &[&str]) -> (r: Vec<Vec<char>>)
    ensures
        views_of(r@) == str_views(path@),
{
    let mut r: Vec<Vec<char>> = Vec::new();
    let mut i: usize = 0;
    while i < path.len()
        invariant
            i <= path@.len(),
            r@.len() == i,
            forall|j: int| 0 <= j < i ==> (#[trigger] r@[j])@ == path@[j]@,
        decreases path@.len() - i,
    {
        r.push(chars_of(path[i]));
        i += 1;
    }
    assert(views_of(r@) =~= str_views(path@));
    r
}

impl Node {
    /// Navigates `path[idx..]` below this node; errors name the chain from
    /// `prefix`.
    fn get_path_at(&self, path: &Vec<Vec<char>>, idx: usize, prefix: &Vec<char>) -> (r: Result<&Node, Error>)
        requires
            idx <= path@.len(),
        ensures
            nav_result_matches(r, path_spec(self@, views_of(path@).skip(idx as int), prefix@)),
        decreases path@.len() - idx,
    {
        let ghost p = views_of(path@).skip(idx as int);
        if idx == path.len() {
            return Ok(self);
        }
        let key = &path[idx];
        assert(p[0] == key@);
        assert(p.drop_first() =~= views_of(path@).skip(idx + 1));
        let here = join_path(prefix, key);
        match self {
            Node::Mapping(m) => match m.find(key) {
                Some(i) => {
                    proof {
                        lemma_map_find(m@, key@);
                    }
                    m.node_at(i).get_path_at(path, idx + 1, &here)
                },
                None => {
                    let mut msg = here;
                    extend_str(&mut msg, ": key not found");
                    Err(Error::from_chars(ErrorKind::KeyNotFound, 0, 0, &msg))
                },
            },
            _ => {
                let mut msg: Vec<char> = Vec::new();
                if prefix.len() == 0 {
                    extend_str(&mut msg, "root");
                } else {
                    extend(&mut msg, prefix);
                }
                extend_str(&mut msg, " is ");
                let kind = non_map_kind_of(self);
                extend(&mut msg, &kind);
                extend_str(&mut msg, "; cannot index `");
                extend(&mut msg, key);
                extend_str(&mut msg, "`");
                Err(Error::from_chars(ErrorKind::NotAMap, 0, 0, &msg))
            },
        }
    }

    /// Mutable counterpart of `get_path_at`.
    fn get_path_mut_at(&mut self, path: &Vec<Vec<char>>, idx: usize, prefix: &Vec<char>) -> (r: Result<&mut Node, Error>)
        requires
            idx <= path@.len(),
        ensures
            match path_spec(old(self)@, views_of(path@).skip(idx as int), prefix@) {
                Ok(t) => r matches Ok(n) && (*n)@ == t && (*final(self))@ == path_replace(
                    old(self)@,
                    views_of(path@).skip(idx as int),
                    (*final(n))@,
                ),
                Err((k, msg)) => r matches Err(e) && e.kind == k && e.line == 0 && e.col == 0
                    && e.message@ == msg && (*final(self))@ == old(self)@,
            },
        decreases path@.len() - idx,
    {
        let ghost p = views_of(path@).skip(idx as int);
        if idx == path.len() {
            return Ok(self);
        }
        let key = &path[idx];
        assert(p[0] == key@);
        assert(p.drop_first() =~= views_of(path@).skip(idx + 1));
        let here = join_path(prefix, key);
        if self.as_map().is_none() {
            let mut msg: Vec<char> = Vec::new();
            if prefix.len() == 0 {
                extend_str(&mut msg, "root");
            } else {
                extend(&mut msg, prefix);
            }
            extend_str(&mut msg, " is ");
            let kind = non_map_kind_of(self);
            extend(&mut msg, &kind);
            extend_str(&mut msg, "; cannot index `");
            extend(&mut msg, key);
            extend_str(&mut msg, "`");
            return Err(Error::from_chars(ErrorKind::NotAMap, 0, 0, &msg));
        }
        match self {
            Node::Mapping(m) => match m.find(key) {
                Some(i) => {
                    proof {
                        lemma_map_find(m@, key@);
                        assert(m@.update(i as int, (m@[i as int].0, m@[i as int].1)) =~= m@);
                    }
                    let child = m.node_mut_at(i);
                    child.get_path_mut_at(path, idx + 1, &here)
                },
                None => {
                    let mut msg = here;
                    extend_str(&mut msg, ": key not found");
                    Err(Error::from_chars(ErrorKind::KeyNotFound, 0, 0, &msg))
                },
            },
            _ => {
                assert(false);
                Err(Error::new(ErrorKind::NotAMap, 0, 0, ""))
            },
        }
    }

    /// Navigates a full key path through nested maps, returning the
    /// deepest node. Errors name the full chain, e.g. `a.b.c: key not found`
    /// or `d.e is a scalar (int); cannot index `f``.
    pub fn get_path(&self, path: &[&str]) -> (r: Result<&Node, Error>)
        ensures
            nav_result_matches(r, path_spec(self@, str_views(path@), Seq::empty())),
    {
        let segs = segments_of(path);
        let empty: Vec<char> = Vec::new();
        assert(views_of(segs@).skip(0) =~= views_of(segs@));
        self.get_path_at(&segs, 0, &empty)
    }

    /// Like `get_path` on the pieces of `path` split at every `.`, empty
    /// pieces kept (see `lemma_split_dots_splits`).
    pub fn get_path_str(&self, path: &str) -> (r: Result<&Node, Error>)
        ensures
            nav_result_matches(r, path_spec(self@, split_dots(path@), Seq::empty())),
    {
        let v = chars_of(path);
        let segs = split_on_dots(&v);
        let empty: Vec<char> = Vec::new();
        assert(views_of(segs@).skip(0) =~= views_of(segs@));
        self.get_path_at(&segs, 0, &empty)
    }

    /// Like `get_path`, but `None` on any failure.
    pub fn get_path_opt(&self, path: &[&str]) -> (r: Option<&Node>)
        ensures
            match path_spec(self@, str_views(path@), Seq::empty()) {
                Ok(t) => r matches Some(n) && n@ == t,
                Err(_) => r is None,
            },
    {
        match self.get_path(path) {
            Ok(n) => Some(n),
            Err(_) => None,
        }
    }

    /// Like `get_path_str`, but `None` on any failure.
    pub fn get_path_str_opt(&self, path: &str) -> (r: Option<&Node>)
        ensures
            match path_spec(self@, split_dots(path@), Seq::empty()) {
                Ok(t) => r matches Some(n) && n@ == t,
                Err(_) => r is None,
            },
    {
        match self.get_path_str(path) {
            Ok(n) => Some(n),
            Err(_) => None,
        }
    }

    /// Mutable counterpart of `get_path`.
    pub fn get_path_mut(&mut self, path: &[&str]) -> (r: Result<&mut Node, Error>)
        ensures
            match path_spec(old(self)@, str_views(path@), Seq::empty()) {
                Ok(t) => r matches Ok(n) && (*n)@ == t && (*final(self))@ == path_replace(
                    old(self)@,
                    str_views(path@),
                    (*final(n))@,
                ),
                Err((k, msg)) => r matches Err(e) && e.kind == k && e.line == 0 && e.col == 0
                    && e.message@ == msg && (*final(self))@ == old(self)@,
            },
    {
        let segs = segments_of(path);
        let empty: Vec<char> = Vec::new();
        assert(views_of(segs@).skip(0) =~= views_of(segs@));
        self.get_path_mut_at(&segs, 0, &empty)
    }

    /// Mutable counterpart of `get_path_str`.
    pub fn get_path_str_mut(&mut self, path: &str) -> (r: Result<&mut Node, Error>)
        ensures
            match path_spec(old(self)@, split_dots(path@), Seq::empty()) {
                Ok(t) => r matches Ok(n) && (*n)@ == t && (*final(self))@ == path_replace(
                    old(self)@,
                    split_dots(path@),
                    (*final(n))@,
                ),
                Err((k, msg)) => r matches Err(e) && e.kind == k && e.line == 0 && e.col == 0
                    && e.message@ == msg && (*final(self))@ == old(self)@,
            },
    {
        let v = chars_of(path);
        let segs = split_on_dots(&v);
        let empty: Vec<char> = Vec::new();
        assert(views_of(segs@).skip(0) =~= views_of(segs@));
        self.get_path_mut_at(&segs, 0, &empty)
    }

    /// Mutable counterpart of `get_path_opt`.
    pub fn get_path_opt_mut(&mut self, path: &[&str]) -> (r: Option<&mut Node>)
        ensures
            match path_spec(old(self)@, str_views(path@), Seq::empty()) {
                Ok(t) => r matches Some(n) && (*n)@ == t && (*final(self))@ == path_replace(
                    old(self)@,
                    str_views(path@),
                    (*final(n))@,
                ),
                Err(_) => r is None && (*final(self))@ == old(self)@,
            },
    {
        match self.get_path_mut(path) {
            Ok(n) => Some(n),
            Err(_) => None,
        }
    }

    /// Mutable counterpart of `get_path_str_opt`.
    pub fn get_path_str_opt_mut(&mut self, path: &str) -> (r: Option<&mut Node>)
        ensures
            match path_spec(old(self)@, split_dots(path@), Seq::empty()) {
                Ok(t) => r matches Some(n) && (*n)@ == t && (*final(self))@ == path_replace(
                    old(self)@,
                    split_dots(path@),
                    (*final(n))@,
                ),
                Err(_) => r is None && (*final(self))@ == old(self)@,
            },
    {
        match self.get_path_str_mut(path) {
            Ok(n) => Some(n),
            Err(_) => None,
        }
    }
}

} // verus!

verus! {

impl From<&str> for Scalar {
    /// A string scalar whose text and raw token are `s`.
    fn from(s: &str) -> (r: Scalar)
        ensures
            r.shape == Shape::Str,
            r.text@ == s@,
            r.raw@ == s@,
    {
        Scalar::new(Shape::Str, s)
    }
}

/// `String` values are only determined up to their characters, so the
/// conversions into `Scalar` state their result through the `ensures` of
/// each `from` rather than through an equality with a spec value.
impl vstd::std_specs::convert::FromSpecImpl<&str> for Scalar {
    open spec fn obeys_from_spec() -> bool {
        false
    }

    open spec fn from_spec(s: &str) -> Scalar {
        arbitrary()
    }
}

impl From<String> for Scalar {
    /// A string scalar whose text and raw token are `s`.
    fn from(s: String) -> (r: Scalar)
        ensures
            r.shape == Shape::Str,
            r.text@ == s@,
            r.raw@ == s@,
    {
        Scalar::new(Shape::Str, s.as_str())
    }
}

impl vstd::std_specs::convert::FromSpecImpl<String> for Scalar {
    open spec fn obeys_from_spec() -> bool {
        false
    }

    open spec fn from_spec(s: String) -> Scalar {
        arbitrary()
    }
}

impl From<i64> for Scalar {
    /// An int scalar spelled in decimal.
    fn from(n: i64) -> (r: Scalar)
        ensures
            r.shape == Shape::Int,
            r.text@ == crate::text::int_text(n as int),
            r.raw@ == crate::text::int_text(n as int),
    {
        let v = crate::text::i64_to_chars(n);
        Scalar { shape: Shape::Int, text: string_of(&v), raw: string_of(&v) }
    }
}

impl vstd::std_specs::convert::FromSpecImpl<i64> for Scalar {
    open spec fn obeys_from_spec() -> bool {
        false
    }

    open spec fn from_spec(n: i64) -> Scalar {
        arbitrary()
    }
}

impl From<bool> for Scalar {
    /// A bool scalar spelled `true` or `false`.
    fn from(b: bool) -> (r: Scalar)
        ensures
            r.shape == Shape::Bool,
            r.text@ == (if b { "true"@ } else { "false"@ }),
            r.raw@ == (if b { "true"@ } else { "false"@ }),
    {
        if b {
            Scalar::new(Shape::Bool, "true")
        } else {
            Scalar::new(Shape::Bool, "false")
        }
    }
}

impl vstd::std_specs::convert::FromSpecImpl<bool> for Scalar {
    open spec fn obeys_from_spec() -> bool {
        false
    }

    open spec fn from_spec(b: bool) -> Scalar {
        arbitrary()
    }
}

impl From<Scalar> for Node {
    fn from(s: Scalar) -> (r: Node) {
        Node::Scalar(s)
    }
}

impl vstd::std_specs::convert::FromSpecImpl<Scalar> for Node {
    open spec fn obeys_from_spec() -> bool {
        true
    }

    open spec fn from_spec(s: Scalar) -> Node {
        Node::Scalar(s)
    }
}

impl From<Mapping> for Node {
    fn from(m: Mapping) -> (r: Node) {
        Node::Mapping(m)
    }
}

impl vstd::std_specs::convert::FromSpecImpl<Mapping> for Node {
    open spec fn obeys_from_spec() -> bool {
        true
    }

    open spec fn from_spec(m: Mapping) -> Node {
        Node::Mapping(m)
    }
}

impl From<Vec<Node>> for Node {
    fn from(l: Vec<Node>) -> (r: Node) {
        Node::List(l)
    }
}

impl vstd::std_specs::convert::FromSpecImpl<Vec<Node>> for Node {
    open spec fn obeys_from_spec() -> bool {
        true
    }

    open spec fn from_spec(l: Vec<Node>) -> Node {
        Node::List(l)
    }
}

/// A parsed KVD document: the root is always a mapping.
pub type Document = Mapping;

} // verus!

verus! {

impl Node {
    /// A mutable reference to item `i` of a list node.
    pub fn list_item_mut(&mut self, i: usize) -> (r: &mut Node)
        requires
            old(self)@ is List,
            i < old(self)@->List_0.len(),
        ensures
            (*r)@ == old(self)@->List_0[i as int],
            (*final(self))@ is List,
            (*final(self))@->List_0 =~= old(self)@->List_0.update(i as int, (*final(r))@),
    {
        match self {
            Node::List(v) => &mut v[i],
            _ => {
                assert(false);
                self
            },
        }
    }

    /// Removes item `i` of a list node, returning it.
    pub fn list_remove(&mut self, i: usize) -> (r: Node)
        requires
            old(self)@ is List,
            i < old(self)@->List_0.len(),
        ensures
            r@ == old(self)@->List_0[i as int],
            (*final(self))@ == NodeV::List(old(self)@->List_0.remove(i as int)),
    {
        let ghost before = self@;
        match self {
            Node::List(v) => {
                let r = v.remove(i);
                assert(self@->List_0 =~= before->List_0.remove(i as int));
                r
            },
            _ => {
                assert(false);
                Node::List(Vec::new())
            },
        }
    }

    /// Replaces item `i` of a list node.
    pub fn list_set(&mut self, i: usize, value: Node)
        requires
            old(self)@ is List,
            i < old(self)@->List_0.len(),
        ensures
            (*final(self))@ == NodeV::List(old(self)@->List_0.update(i as int, value@)),
    {
        let ghost before = self@;
        match self {
            Node::List(v) => {
                v.set(i, value);
                assert(self@->List_0 =~= before->List_0.update(i as int, value@));
            },
            _ => {
                assert(false);
            },
        }
    }
}

} // verus!

verus! {

impl Mapping {
    /// Replaces the node of entry `index`, returning the node it held.
    pub fn replace_node_at(&mut self, index: usize, value: Node) -> (r: Node)
        requires
            index < old(self)@.len(),
        ensures
            r@ == old(self)@[index as int].1,
            final(self)@ == old(self)@.update(index as int, (old(self)@[index as int].0, value@)),
    {
        assert(self@.len() == self.entries.len());
        let (k, prev) = self.entries.remove(index);
        self.entries.insert(index, (k, value));
        assert(self@ =~= old(self)@.update(index as int, (old(self)@[index as int].0, value@)));
        prev
    }
}

/// A scalar whose text matches its shape: an integer's text is an
/// integer literal, a float's a float literal that is no integer literal,
/// booleans and null are their keywords.
pub open spec fn wf_scalar(s: ScalarV) -> bool {
    match s.shape {
        Shape::Int => spec_is_int(s.text),
        Shape::Float => spec_is_float(s.text) && !spec_is_int(s.text),
        Shape::Bool => s.text == "true"@ || s.text == "false"@,
        Shape::Null => s.text == "null"@,
        Shape::Str => true,
    }
}

/// No key occurs twice among the entries.
pub open spec fn keys_unique(m: Seq<(Seq<char>, NodeV)>) -> bool {
    forall|i: int, j: int| 0 <= i < j < m.len() ==> m[i].0 != m[j].0
}

/// A well-formed tree: every map has distinct, non-empty keys and every
/// scalar's text matches its shape.
pub open spec fn wf_node(n: NodeV) -> bool
    decreases n,
{
    match n {
        NodeV::Scalar(s) => wf_scalar(s),
        NodeV::Mapping(m) => keys_unique(m) && forall|i: int|
            #![trigger m[i]]
            0 <= i < m.len() ==> m[i].0.len() > 0 && wf_node(m[i].1),
        NodeV::List(l) => forall|i: int| #![trigger l[i]] 0 <= i < l.len() ==> wf_node(l[i]),
    }
}

/// Every key and every list item of `n` sits at most `budget` levels
/// deep, where the keys of a map and the items of a list are one level
/// below the map or list.
pub open spec fn depth_ok(n: NodeV, budget: int) -> bool
    decreases n,
{
    match n {
        NodeV::Scalar(_) => true,
        NodeV::Mapping(m) => m.len() == 0 || (budget >= 1 && forall|i: int|
            #![trigger m[i]]
            0 <= i < m.len() ==> depth_ok(m[i].1, budget - 1)),
        NodeV::List(l) => l.len() == 0 || (budget >= 1 && forall|i: int|
            #![trigger l[i]]
            0 <= i < l.len() ==> depth_ok(l[i], budget - 1)),
    }
}

/// A map within a depth budget has each entry's node within one level less.
pub proof fn lemma_depth_map_elim(m: Seq<(Seq<char>, NodeV)>, b: int)
    requires
        depth_ok(NodeV::Mapping(m), b),
    ensures
        forall|i: int| #![trigger m[i]] 0 <= i < m.len() ==> b >= 1 && depth_ok(m[i].1, b - 1),
{
    let n = NodeV::Mapping(m);
    assert forall|i: int| #![trigger m[i]] 0 <= i < m.len() implies b >= 1 && depth_ok(m[i].1, b - 1) by {
        assert(n->Mapping_0[i] == m[i]);
    }
}

/// A map whose entries' nodes fit one level less fits the budget.
pub proof fn lemma_depth_map_intro(m: Seq<(Seq<char>, NodeV)>, b: int)
    requires
        forall|i: int| #![trigger m[i]] 0 <= i < m.len() ==> b >= 1 && depth_ok(m[i].1, b - 1),
    ensures
        depth_ok(NodeV::Mapping(m), b),
{
    let n = NodeV::Mapping(m);
    assert forall|i: int| #![trigger n->Mapping_0[i]] 0 <= i < n->Mapping_0.len() implies
        depth_ok(n->Mapping_0[i].1, b - 1) by {
        assert(n->Mapping_0[i] == m[i]);
    }
    if m.len() > 0 {
        assert(m[0] == m[0]);
    }
}

/// Well-formedness of a map, entry by entry.
pub proof fn lemma_wf_map(m: Seq<(Seq<char>, NodeV)>)
    ensures
        wf_node(NodeV::Mapping(m)) <==> keys_unique(m) && forall|i: int|
            #![trigger m[i]]
            0 <= i < m.len() ==> m[i].0.len() > 0 && wf_node(m[i].1),
{
    let n = NodeV::Mapping(m);
    assert forall|i: int| 0 <= i < m.len() implies (#[trigger] m[i]) == n->Mapping_0[i] by {}
    if wf_node(n) {
        assert forall|i: int| #![trigger m[i]] 0 <= i < m.len() implies m[i].0.len() > 0 && wf_node(m[i].1) by {
            assert(n->Mapping_0[i] == m[i]);
        }
    }
    if keys_unique(m) && forall|i: int| #![trigger m[i]] 0 <= i < m.len() ==> m[i].0.len() > 0 && wf_node(m[i].1) {
        assert forall|i: int| #![trigger n->Mapping_0[i]] 0 <= i < n->Mapping_0.len() implies n->Mapping_0[i].0.len() > 0
            && wf_node(n->Mapping_0[i].1) by {
            assert(n->Mapping_0[i] == m[i]);
        }
    }
}

/// Budgets of zero or less all admit exactly the trees without keys or
/// list items.
pub proof fn lemma_depth_exhausted(n: NodeV, b: int, b2: int)
    requires
        b <= 0,
        b2 <= 0,
        depth_ok(n, b),
    ensures
        depth_ok(n, b2),
    decreases n,
{
    match n {
        NodeV::Scalar(_) => {},
        NodeV::Mapping(m) => {
            lemma_depth_map_elim(m, b);
            if m.len() > 0 {
                assert(m[0] == m[0]);
            }
            lemma_depth_map_intro(m, b2);
        },
        NodeV::List(l) => {
            if l.len() > 0 {
                assert(l[0] == l[0]);
            }
        },
    }
}

/// Appending a fresh key keeps a map well formed and within its budget.
pub proof fn lemma_push_entry(m: Seq<(Seq<char>, NodeV)>, k: Seq<char>, v: NodeV, b: int)
    requires
        wf_node(NodeV::Mapping(m)),
        map_find(m, k) is None,
        k.len() > 0,
        wf_node(v),
        depth_ok(NodeV::Mapping(m), b),
        b >= 1,
        depth_ok(v, b - 1),
    ensures
        wf_node(NodeV::Mapping(m.push((k, v)))),
        depth_ok(NodeV::Mapping(m.push((k, v))), b),
{
    lemma_map_find(m, k);
    let m2 = m.push((k, v));
    lemma_wf_map(m);
    lemma_wf_map(m2);
    lemma_depth_map_elim(m, b);
    assert forall|i: int| #![trigger m2[i]] 0 <= i < m2.len() implies m2[i].0.len() > 0 && wf_node(m2[i].1)
        && b >= 1 && depth_ok(m2[i].1, b - 1) by {
        if i < m.len() {
            assert(m2[i] == m[i]);
        }
    }
    lemma_depth_map_intro(m2, b);
    assert forall|i: int, j: int| 0 <= i < j < m2.len() implies m2[i].0 != m2[j].0 by {
        assert(m2[i] == m[i]);
    }
}

/// Replacing the node of an entry keeps a map well formed and within its
/// budget when the new node is.
pub proof fn lemma_update_entry(m: Seq<(Seq<char>, NodeV)>, idx: int, v: NodeV, b: int)
    requires
        wf_node(NodeV::Mapping(m)),
        0 <= idx < m.len(),
        wf_node(v),
        depth_ok(NodeV::Mapping(m), b),
        b >= 1,
        depth_ok(v, b - 1),
    ensures
        wf_node(NodeV::Mapping(m.update(idx, (m[idx].0, v)))),
        depth_ok(NodeV::Mapping(m.update(idx, (m[idx].0, v))), b),
{
    let m2 = m.update(idx, (m[idx].0, v));
    lemma_wf_map(m);
    lemma_wf_map(m2);
    lemma_depth_map_elim(m, b);
    assert forall|i: int| #![trigger m2[i]] 0 <= i < m2.len() implies m2[i].0.len() > 0 && wf_node(m2[i].1)
        && b >= 1 && depth_ok(m2[i].1, b - 1) by {
        if i != idx {
            assert(m2[i] == m[i]);
        } else {
            assert(m[i] == m[i]);
        }
    }
    assert forall|i: int, j: int| 0 <= i < j < m2.len() implies m2[i].0 != m2[j].0 by {
        assert(m2[i].0 == m[i].0);
        assert(m2[j].0 == m[j].0);
    }
    lemma_depth_map_intro(m2, b);
}

} // verus!
