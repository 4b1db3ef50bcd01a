//! Schema verification: a separate pass over a parsed document.
//!
//! A schema document is ordinary KVD whose values are builtin scalar type
//! names (`int`, `float`, `bool`, `str`), container type names (`list`,
//! `dict`) inside a `type:` descriptor, or the `{}` / `[]` literals: a bare
//! tree mirroring the data's structure. A one-item list declares the
//! element type for every item of the corresponding data list. Descriptors
//! may carry `optional: true`, an ignored `description` string, and a
//! `validation` block with ranges, lengths and patterns.
use vstd::prelude::*;
use crate::error::{error_display, Error};
use crate::grammar::{spec_is_int, spec_is_type_name, all_digits, index_of_either};
use crate::text::{chars_of, extend, extend_str, string_of, decimal, int_text};
use crate::value::{join_path_spec, map_find, lemma_map_find, wf_node, Mapping, Node, NodeV, ScalarV, Shape};
use crate::lexer::text_limit;

mod check;
pub mod numeric;

verus! {

/// One verification failure, located by the dotted path of the offending
/// value (`app.port`, `endpoints[0].method`).
#[derive(Debug, Clone, PartialEq, Eq)]
pub struct Violation {
    /// Dotted path to the offending value; empty for document-level issues.
    pub path: String,
    /// Human-readable explanation.
    pub message: String,
}

/// A violation as (path, message).
pub type ViolationV = (Seq<char>, Seq<char>);

impl Violation {
    pub open spec fn view(&self) -> ViolationV {
        (self.path@, self.message@)
    }

    /// Creates a violation at `path` with `message`.
    pub fn new(path: &str, message: &str) -> (v: Violation)
        ensures
            v@ == (path@, message@),
    {
        Violation { path: String::from_str(path), message: String::from_str(message) }
    }

    /// The display form: `path: message`, or the message alone at the root.
    pub fn to_string(&self) -> (s: String)
        ensures
            s@ == violation_display(self@),
    {
        if self.path.unicode_len() == 0 {
            return self.message.clone();
        }
        let mut v: Vec<char> = Vec::new();
        extend_str(&mut v, self.path.as_str());
        extend_str(&mut v, ": ");
        extend_str(&mut v, self.message.as_str());
        string_of(&v)
    }
}

/// The display form of a violation.
pub open spec fn violation_display(v: ViolationV) -> Seq<char> {
    if v.0.len() == 0 {
        v.1
    } else {
        v.0 + ": "@ + v.1
    }
}

/// The views of a list of violations.
pub open spec fn viols(v: Seq<Violation>) -> Seq<ViolationV> {
    Seq::new(v.len(), |i: int| v[i]@)
}

/// A violation built from character vectors.
fn violation(path: &Vec<char>, message: &Vec<char>) -> (v: Violation)
    ensures
        v@ == (path@, message@),
{
    Violation { path: string_of(path), message: string_of(message) }
}

/// Appends a violation to `out`.
fn push_violation(out: &mut Vec<Violation>, path: &Vec<char>, message: &Vec<char>)
    ensures
        viols(final(out)@) == viols(old(out)@).push((path@, message@)),
{
    out.push(violation(path, message));
    assert(viols(out@) =~= viols(old(out)@).push((path@, message@)));
}

/// Appends a violation with a literal message to `out`.
fn push_violation_str(out: &mut Vec<Violation>, path: &Vec<char>, message: &str)
    ensures
        viols(final(out)@) == viols(old(out)@).push((path@, message@)),
{
    let m = chars_of(message);
    push_violation(out, path, &m);
}

/// Everything that can go wrong in one verification call: a document did
/// not parse, the schema is malformed, or the document breaks the schema.
#[derive(Debug, Clone, PartialEq, Eq)]
#[non_exhaustive]
pub enum VerifyError {
    /// The data document did not parse.
    ParseDoc(Error),
    /// The companion schema document did not parse.
    ParseSchema(Error),
    /// Everything parsed; verification reported these document violations.
    Violations(Vec<Violation>),
    /// Everything parsed, but the schema itself is malformed (a quoted or
    /// numbered type leaf, a bare `list`/`dict` leaf, a descriptor missing
    /// its `type`, an unknown type name, ...). No document violations are
    /// reported for a malformed schema.
    SchemaMalformed(Vec<Violation>),
}

/// The lines of a list of violations, each ended by a newline.
pub open spec fn violation_lines(vs: Seq<ViolationV>) -> Seq<char>
    decreases vs.len(),
{
    if vs.len() == 0 {
        Seq::empty()
    } else {
        violation_lines(vs.drop_last()) + violation_display(vs.last()) + "\n"@
    }
}

/// The display form of a verification error.
pub open spec fn verify_error_display(e: VerifyError) -> Seq<char> {
    match e {
        VerifyError::ParseDoc(x) => "document parse error: "@ + error_display(x.kind, x.line as nat, x.col as nat, x.message@),
        VerifyError::ParseSchema(x) => "schema parse error: "@ + error_display(x.kind, x.line as nat, x.col as nat, x.message@),
        VerifyError::Violations(vs) => violation_lines(viols(vs@)),
        VerifyError::SchemaMalformed(vs) => violation_lines(viols(vs@)),
    }
}

impl VerifyError {
    /// The display form of this error.
    pub fn to_string(&self) -> (s: String)
        ensures
            s@ == verify_error_display(*self),
    {
        match self {
            VerifyError::ParseDoc(e) => {
                let mut v: Vec<char> = Vec::new();
                extend_str(&mut v, "document parse error: ");
                let d = e.to_string();
                extend_str(&mut v, d.as_str());
                string_of(&v)
            },
            VerifyError::ParseSchema(e) => {
                let mut v: Vec<char> = Vec::new();
                extend_str(&mut v, "schema parse error: ");
                let d = e.to_string();
                extend_str(&mut v, d.as_str());
                string_of(&v)
            },
            VerifyError::Violations(vs) => lines_of(vs),
            VerifyError::SchemaMalformed(vs) => lines_of(vs),
        }
    }
}

/// One line per violation.
fn lines_of(vs: &Vec<Violation>) -> (s: String)
    ensures
        s@ == violation_lines(viols(vs@)),
{
    let mut v: Vec<char> = Vec::new();
    let mut i: usize = 0;
    while i < vs.len()
        invariant
            i <= vs@.len(),
            v@ == violation_lines(viols(vs@).take(i as int)),
        decreases vs.len() - i,
    {
        let d = vs[i].to_string();
        extend_str(&mut v, d.as_str());
        extend_str(&mut v, "\n");
        proof {
            assert(viols(vs@).take(i + 1).drop_last() =~= viols(vs@).take(i as int));
        }
        i += 1;
    }
    assert(viols(vs@).take(vs@.len() as int) =~= viols(vs@));
    string_of(&v)
}

/// The builtin schema types.
#[derive(Debug, Clone, Copy, PartialEq, Eq, Structural)]
pub enum Builtin {
    Int,
    Float,
    Bool,
    Str,
    List,
    Dict,
}

/// The builtin type a name denotes.
pub open spec fn builtin_spec(name: Seq<char>) -> Option<Builtin> {
    if name == "int"@ {
        Some(Builtin::Int)
    } else if name == "float"@ {
        Some(Builtin::Float)
    } else if name == "bool"@ {
        Some(Builtin::Bool)
    } else if name == "str"@ {
        Some(Builtin::Str)
    } else if name == "list"@ {
        Some(Builtin::List)
    } else if name == "dict"@ {
        Some(Builtin::Dict)
    } else {
        None
    }
}

/// The builtin type a name denotes.
fn builtin(name: &Vec<char>) -> (r: Option<Builtin>)
    ensures
        r == builtin_spec(name@),
{
    if crate::text::chars_eq_str(name, "int") {
        Some(Builtin::Int)
    } else if crate::text::chars_eq_str(name, "float") {
        Some(Builtin::Float)
    } else if crate::text::chars_eq_str(name, "bool") {
        Some(Builtin::Bool)
    } else if crate::text::chars_eq_str(name, "str") {
        Some(Builtin::Str)
    } else if crate::text::chars_eq_str(name, "list") {
        Some(Builtin::List)
    } else if crate::text::chars_eq_str(name, "dict") {
        Some(Builtin::Dict)
    } else {
        None
    }
}

/// The type name a schema scalar spells: an unquoted string that is a
/// type name. Quoted strings, numbers and booleans name no type.
pub open spec fn type_ref_spec(s: ScalarV) -> Option<Seq<char>> {
    if s.shape != Shape::Str {
        None
    } else if s.raw.len() > 0 && s.raw[0] == '"' {
        None
    } else if spec_is_type_name(s.text) {
        Some(s.text)
    } else {
        None
    }
}

/// The node under `key` of entries `m`, if any.
pub open spec fn entry(m: Seq<(Seq<char>, NodeV)>, key: Seq<char>) -> Option<NodeV> {
    match map_find(m, key) {
        Some(i) => Some(m[i].1),
        None => None,
    }
}

/// A schema leaf's type name and optionality: a bare type-name scalar, or
/// a map with a `type` key (and possibly `optional: true`).
pub open spec fn descriptor_spec(schema: NodeV) -> Option<(Seq<char>, bool)> {
    match schema {
        NodeV::Scalar(s) => match type_ref_spec(s) {
            Some(name) => Some((name, false)),
            None => None,
        },
        NodeV::Mapping(m) => match entry(m, "type"@) {
            Some(NodeV::Scalar(t)) => match type_ref_spec(t) {
                Some(name) => Some(
                    (
                        name,
                        entry(m, "optional"@) matches Some(NodeV::Scalar(o)) && o.shape == Shape::Bool
                            && o.text == "true"@,
                    ),
                ),
                None => None,
            },
            _ => None,
        },
        NodeV::List(_) => None,
    }
}

/// Whether a schema node declares an optional leaf.
pub open spec fn is_optional_leaf(schema: NodeV) -> bool {
    descriptor_spec(schema) matches Some((_, true))
}

/// How a node is named in messages.
pub open spec fn kind_name(n: NodeV) -> Seq<char> {
    match n {
        NodeV::Scalar(_) => "a scalar"@,
        NodeV::Mapping(_) => "a map"@,
        NodeV::List(_) => "a list"@,
    }
}

/// How a scalar shape is named in messages.
pub open spec fn shape_label(s: Shape) -> Seq<char> {
    match s {
        Shape::Int => "int"@,
        Shape::Float => "float"@,
        Shape::Bool => "bool"@,
        Shape::Str => "string"@,
        Shape::Null => "null"@,
    }
}

/// The type name spelled by a schema scalar, if any.
fn type_ref(s: &crate::value::Scalar) -> (r: Option<Vec<char>>)
    ensures
        match type_ref_spec(s@) {
            Some(n) => r matches Some(v) && v@ == n,
            None => r is None,
        },
{
    if s.shape != Shape::Str {
        return None;
    }
    let raw = chars_of(s.raw.as_str());
    if raw.len() > 0 && raw[0] == '"' {
        return None;
    }
    let t = chars_of(s.text.as_str());
    assert(t@.subrange(0, t@.len() as int) =~= t@);
    if crate::grammar::is_type_name_range(&t, 0, t.len()) {
        Some(t)
    } else {
        None
    }
}

/// The node under `key` of `m`, if any.
fn get_entry<'a>(m: &'a Mapping, key: &str) -> (r: Option<&'a Node>)
    ensures
        match entry(m@, key@) {
            Some(n) => r matches Some(x) && x@ == n,
            None => r is None,
        },
{
    let k = chars_of(key);
    match m.find(&k) {
        Some(i) => Some(m.node_at(i)),
        None => None,
    }
}

/// A schema leaf's type name and optionality.
fn descriptor(schema: &Node) -> (r: Option<(Vec<char>, bool)>)
    ensures
        match descriptor_spec(schema@) {
            Some((n, o)) => r matches Some((v, b)) && v@ == n && b == o,
            None => r is None,
        },
{
    match schema {
        Node::Scalar(s) => match type_ref(s) {
            Some(name) => Some((name, false)),
            None => None,
        },
        Node::Mapping(m) => {
            let t = match get_entry(m, "type") {
                Some(Node::Scalar(t)) => t,
                _ => return None,
            };
            let name = match type_ref(t) {
                Some(n) => n,
                None => return None,
            };
            let optional = match get_entry(m, "optional") {
                Some(Node::Scalar(o)) => o.shape == Shape::Bool && crate::text::chars_eq_str(&chars_of(o.text.as_str()), "true"),
                _ => false,
            };
            Some((name, optional))
        },
        Node::List(_) => None,
    }
}

/// How a node is named in messages.
fn kind_of(node: &Node) -> (r: &'static str)
    ensures
        r@ == kind_name(node@),
{
    match node {
        Node::Scalar(_) => "a scalar",
        Node::Mapping(_) => "a map",
        Node::List(_) => "a list",
    }
}

/// How a scalar shape is named in messages.
fn shape_name(shape: Shape) -> (r: &'static str)
    ensures
        r@ == shape_label(shape),
{
    match shape {
        Shape::Int => "int",
        Shape::Float => "float",
        Shape::Bool => "bool",
        Shape::Str => "string",
        Shape::Null => "null",
    }
}

/// The order of two values.
#[derive(Debug, Clone, Copy, PartialEq, Eq, Structural)]
pub enum Order {
    Less,
    Equal,
    Greater,
}

/// A text's sign and the rest: a leading `-` makes it negative, a leading
/// `+` is dropped.
pub open spec fn split_sign(s: Seq<char>) -> (bool, Seq<char>) {
    if s.len() > 0 && s[0] == '-' {
        (true, s.drop_first())
    } else if s.len() > 0 && s[0] == '+' {
        (false, s.drop_first())
    } else {
        (false, s)
    }
}

/// `s` without its leading `0`s.
pub open spec fn strip_zeros(s: Seq<char>) -> Seq<char>
    decreases s.len(),
{
    if s.len() > 0 && s[0] == '0' {
        strip_zeros(s.drop_first())
    } else {
        s
    }
}

/// Digits without leading zeros (`0` for none left).
pub open spec fn normalize_digits(s: Seq<char>) -> Seq<char> {
    if strip_zeros(s).len() == 0 {
        seq!['0']
    } else {
        strip_zeros(s)
    }
}

/// Lexicographic order of two character sequences.
pub open spec fn lex_order(a: Seq<char>, b: Seq<char>) -> Order
    decreases a.len(),
{
    if a.len() == 0 {
        if b.len() == 0 {
            Order::Equal
        } else {
            Order::Less
        }
    } else if b.len() == 0 {
        Order::Greater
    } else if a[0] < b[0] {
        Order::Less
    } else if a[0] > b[0] {
        Order::Greater
    } else {
        lex_order(a.drop_first(), b.drop_first())
    }
}

/// The order of two digit strings: the longer (in UTF-8 bytes) is
/// greater, equal lengths compare lexicographically.
pub open spec fn abs_order_spec(a: Seq<char>, b: Seq<char>) -> Order {
    let la = crate::text::bytes_len(a);
    let lb = crate::text::bytes_len(b);
    if la < lb {
        Order::Less
    } else if la > lb {
        Order::Greater
    } else {
        lex_order(a, b)
    }
}

/// The order of two integer literal texts (signs and `_` separators
/// allowed): by sign, then by magnitude; `-0` equals `0`.
pub open spec fn int_order_spec(a: Seq<char>, b: Seq<char>) -> Order {
    let (an, ad) = split_sign(crate::serialize::without_underscores(a));
    let (bn, bd) = split_sign(crate::serialize::without_underscores(b));
    let na = normalize_digits(ad);
    let nb = normalize_digits(bd);
    let a_neg = an && na != seq!['0'];
    let b_neg = bn && nb != seq!['0'];
    if a_neg && !b_neg {
        Order::Less
    } else if !a_neg && b_neg {
        Order::Greater
    } else if a_neg && b_neg {
        abs_order_spec(nb, na)
    } else {
        abs_order_spec(na, nb)
    }
}

/// The sign of `s` and where its digits start.
fn split_sign_at(s: &Vec<char>) -> (r: (bool, usize))
    ensures
        r.1 <= s@.len(),
        split_sign(s@) == (r.0, s@.skip(r.1 as int)),
{
    if s.len() > 0 && s[0] == '-' {
        assert(s@.drop_first() =~= s@.skip(1));
        (true, 1)
    } else if s.len() > 0 && s[0] == '+' {
        assert(s@.drop_first() =~= s@.skip(1));
        (false, 1)
    } else {
        assert(s@.skip(0) =~= s@);
        (false, 0)
    }
}

/// `s[from..]` without leading zeros (`0` for none left).
fn normalize_from(s: &Vec<char>, from: usize) -> (r: Vec<char>)
    requires
        from <= s@.len(),
    ensures
        r@ == normalize_digits(s@.skip(from as int)),
{
    let mut i = from;
    while i < s.len() && s[i] == '0'
        invariant
            from <= i <= s@.len(),
            strip_zeros(s@.skip(from as int)) == strip_zeros(s@.skip(i as int)),
        decreases s.len() - i,
    {
        assert(s@.skip(i as int).drop_first() =~= s@.skip(i + 1));
        i += 1;
    }
    let mut r: Vec<char> = Vec::new();
    if i == s.len() {
        r.push('0');
        assert(r@ =~= seq!['0']);
        assert(s@.skip(i as int).len() == 0);
        return r;
    }
    crate::text::extend_range(&mut r, s, i, s.len());
    assert(s@.skip(i as int)[0] == s@[i as int]);
    assert(r@ =~= s@.skip(i as int));
    r
}

/// Lexicographic order of two character vectors.
fn compare_lex(a: &Vec<char>, b: &Vec<char>) -> (r: Order)
    ensures
        r == lex_order(a@, b@),
{
    let mut i: usize = 0;
    assert(a@.skip(0) =~= a@);
    assert(b@.skip(0) =~= b@);
    while i < a.len() && i < b.len()
        invariant
            i <= a@.len(),
            i <= b@.len(),
            lex_order(a@, b@) == lex_order(a@.skip(i as int), b@.skip(i as int)),
        decreases a.len() - i,
    {
        assert(a@.skip(i as int)[0] == a@[i as int]);
        assert(b@.skip(i as int)[0] == b@[i as int]);
        if a[i] < b[i] {
            return Order::Less;
        }
        if a[i] > b[i] {
            return Order::Greater;
        }
        assert(a@.skip(i as int).drop_first() =~= a@.skip(i + 1));
        assert(b@.skip(i as int).drop_first() =~= b@.skip(i + 1));
        i += 1;
    }
    if i == a.len() {
        if i == b.len() {
            Order::Equal
        } else {
            Order::Less
        }
    } else {
        Order::Greater
    }
}

/// Number of UTF-8 bytes of `v`.
fn byte_len_wide(v: &Vec<char>) -> (n: u128)
    ensures
        n == crate::text::bytes_len(v@),
{
    let mut n: u128 = 0;
    let mut i: usize = 0;
    while i < v.len()
        invariant
            i <= v@.len(),
            n == crate::text::bytes_len(v@.take(i as int)),
            n <= 4 * i,
        decreases v.len() - i,
    {
        assert(v@.take(i + 1).drop_last() =~= v@.take(i as int));
        let code = v[i] as u32;
        let w: u128 = if code < 0x80 { 1 } else if code < 0x800 { 2 } else if code < 0x10000 { 3 } else { 4 };
        n = n + w;
        i += 1;
    }
    assert(v@.take(v@.len() as int) =~= v@);
    n
}

/// The order of two digit strings.
fn compare_abs(a: &Vec<char>, b: &Vec<char>) -> (r: Order)
    ensures
        r == abs_order_spec(a@, b@),
{
    let la = byte_len_wide(a);
    let lb = byte_len_wide(b);
    if la < lb {
        Order::Less
    } else if la > lb {
        Order::Greater
    } else {
        compare_lex(a, b)
    }
}

/// Compares two integer literal texts (signs and `_` separators allowed)
/// as integers.
fn compare_int(a: &Vec<char>, b: &Vec<char>) -> (r: Order)
    ensures
        r == int_order_spec(a@, b@),
{
    let ac = crate::serialize::remove_underscores(a);
    let bc = crate::serialize::remove_underscores(b);
    let (an, af) = split_sign_at(&ac);
    let (bn, bf) = split_sign_at(&bc);
    let na = normalize_from(&ac, af);
    let nb = normalize_from(&bc, bf);
    let a_zero = na.len() == 1 && na[0] == '0';
    let b_zero = nb.len() == 1 && nb[0] == '0';
    assert(a_zero == (na@ == seq!['0'])) by {
        if na.len() == 1 && na[0] == '0' {
            assert(na@ =~= seq!['0']);
        }
    }
    assert(b_zero == (nb@ == seq!['0'])) by {
        if nb.len() == 1 && nb[0] == '0' {
            assert(nb@ =~= seq!['0']);
        }
    }
    let a_neg = an && !a_zero;
    let b_neg = bn && !b_zero;
    if a_neg && !b_neg {
        Order::Less
    } else if !a_neg && b_neg {
        Order::Greater
    } else if a_neg && b_neg {
        compare_abs(&nb, &na)
    } else {
        compare_abs(&na, &nb)
    }
}

/// What `i64::from_str` reads: an optional sign, then one or more digits
/// whose value fits in `i64`.
pub open spec fn i64_text(t: Seq<char>) -> Option<int> {
    let (neg, d) = if t.len() > 0 && (t[0] == '+' || t[0] == '-') {
        (t[0] == '-', t.drop_first())
    } else {
        (false, t)
    };
    let v: int = if neg {
        -crate::ops::digits_value(d)
    } else {
        crate::ops::digits_value(d) as int
    };
    if d.len() > 0 && all_digits(d) && i64::MIN <= v <= i64::MAX {
        Some(v)
    } else {
        None
    }
}

/// A magnitude bound well past `i64`.
spec fn big() -> int {
    0x1_0000_0000_0000_0000
}

/// Reads `i64::from_str` of `v`.
fn parse_i64(v: &Vec<char>) -> (r: Option<i64>)
    ensures
        match i64_text(v@) {
            Some(n) => r == Some(n as i64),
            None => r is None,
        },
{
    let mut k: usize = 0;
    let mut neg = false;
    if v.len() > 0 && (v[0] == '+' || v[0] == '-') {
        neg = v[0] == '-';
        k = 1;
    }
    let ghost d = v@.skip(k as int);
    assert(d =~= (if v@.len() > 0 && (v@[0] == '+' || v@[0] == '-') { v@.drop_first() } else { v@ }));
    if k == v.len() {
        return None;
    }
    // the magnitude, saturated past the i64 range
    let mut value: u128 = 0;
    let mut j = k;
    while j < v.len()
        invariant
            k <= j <= v@.len(),
            d == v@.skip(k as int),
            d == (if v@.len() > 0 && (v@[0] == '+' || v@[0] == '-') { v@.drop_first() } else { v@ }),
            neg == (v@.len() > 0 && (v@[0] == '+' || v@[0] == '-') && v@[0] == '-'),
            all_digits(v@.subrange(k as int, j as int)),
            value == if crate::ops::digits_value(v@.subrange(k as int, j as int)) < big() {
                crate::ops::digits_value(v@.subrange(k as int, j as int)) as int
            } else {
                big()
            },
        decreases v.len() - j,
    {
        let c = v[j];
        let ghost prev = v@.subrange(k as int, j as int);
        assert(v@.subrange(k as int, j + 1).drop_last() =~= prev);
        if !(c >= '0' && c <= '9') {
            assert(d[j - k] == c);
            assert(!crate::grammar::is_digit(d[j - k]));
            return None;
        }
        let digit = (c as u32 - '0' as u32) as u128;
        proof {
            let pv = crate::ops::digits_value(prev);
            let nv = crate::ops::digits_value(v@.subrange(k as int, j + 1));
            assert(nv == pv * 10 + digit);
            if pv >= big() {
                assert(nv >= big()) by (nonlinear_arith)
                    requires
                        nv == pv * 10 + digit,
                        pv >= big(),
                        digit >= 0,
                ;
            }
        }
        if value >= 0x1_0000_0000_0000_0000u128 {
            value = 0x1_0000_0000_0000_0000u128;
        } else {
            let next = value * 10 + digit;
            value = if next >= 0x1_0000_0000_0000_0000u128 { 0x1_0000_0000_0000_0000u128 } else { next };
        }
        assert(all_digits(v@.subrange(k as int, j + 1))) by {
            assert forall|t: int| 0 <= t < j + 1 - k implies crate::grammar::is_digit(
                #[trigger] v@.subrange(k as int, j + 1)[t],
            ) by {
                if t < j - k {
                    assert(v@.subrange(k as int, j + 1)[t] == prev[t]);
                }
            }
        }
        j += 1;
    }
    assert(v@.subrange(k as int, v@.len() as int) =~= d);
    if neg {
        if value > 0x8000_0000_0000_0000u128 {
            return None;
        }
        if value == 0x8000_0000_0000_0000u128 {
            return Some(i64::MIN);
        }
        Some(-(value as i64))
    } else {
        if value > 0x7fff_ffff_ffff_ffffu128 {
            return None;
        }
        Some(value as i64)
    }
}

/// What `u64::from_str` reads: an optional `+`, then one or more digits
/// whose value fits in `u64`.
pub open spec fn u64_text(t: Seq<char>) -> Option<nat> {
    let d = if t.len() > 0 && t[0] == '+' {
        t.drop_first()
    } else {
        t
    };
    if d.len() > 0 && all_digits(d) && crate::ops::digits_value(d) <= u64::MAX {
        Some(crate::ops::digits_value(d))
    } else {
        None
    }
}

/// Reads `u64::from_str` of `v`.
fn parse_u64(v: &Vec<char>) -> (r: Option<u64>)
    ensures
        match u64_text(v@) {
            Some(n) => r == Some(n as u64),
            None => r is None,
        },
{
    let mut k: usize = 0;
    if v.len() > 0 && v[0] == '+' {
        k = 1;
    }
    let ghost d = v@.skip(k as int);
    assert(d =~= (if v@.len() > 0 && v@[0] == '+' { v@.drop_first() } else { v@ }));
    if k == v.len() {
        return None;
    }
    // the magnitude, saturated past the u64 range
    let mut value: u128 = 0;
    let mut j = k;
    while j < v.len()
        invariant
            k <= j <= v@.len(),
            d == v@.skip(k as int),
            d == (if v@.len() > 0 && v@[0] == '+' { v@.drop_first() } else { v@ }),
            all_digits(v@.subrange(k as int, j as int)),
            value == if crate::ops::digits_value(v@.subrange(k as int, j as int)) < big() {
                crate::ops::digits_value(v@.subrange(k as int, j as int)) as int
            } else {
                big()
            },
        decreases v.len() - j,
    {
        let c = v[j];
        let ghost prev = v@.subrange(k as int, j as int);
        assert(v@.subrange(k as int, j + 1).drop_last() =~= prev);
        if !(c >= '0' && c <= '9') {
            assert(d[j - k] == c);
            assert(!crate::grammar::is_digit(d[j - k]));
            return None;
        }
        let digit = (c as u32 - '0' as u32) as u128;
        proof {
            let pv = crate::ops::digits_value(prev);
            let nv = crate::ops::digits_value(v@.subrange(k as int, j + 1));
            assert(nv == pv * 10 + digit);
            if pv >= big() {
                assert(nv >= big()) by (nonlinear_arith)
                    requires
                        nv == pv * 10 + digit,
                        pv >= big(),
                        digit >= 0,
                ;
            }
        }
        if value >= 0x1_0000_0000_0000_0000u128 {
            value = 0x1_0000_0000_0000_0000u128;
        } else {
            let next = value * 10 + digit;
            value = if next >= 0x1_0000_0000_0000_0000u128 { 0x1_0000_0000_0000_0000u128 } else { next };
        }
        assert(all_digits(v@.subrange(k as int, j + 1))) by {
            assert forall|t: int| 0 <= t < j + 1 - k implies crate::grammar::is_digit(
                #[trigger] v@.subrange(k as int, j + 1)[t],
            ) by {
                if t < j - k {
                    assert(v@.subrange(k as int, j + 1)[t] == prev[t]);
                }
            }
        }
        j += 1;
    }
    assert(v@.subrange(k as int, v@.len() as int) =~= d);
    if value > 0xffff_ffff_ffff_ffffu128 {
        return None;
    }
    Some(value as u64)
}

/// The number an integer's text denotes, read without its `_`
/// separators: as `i64` where it fits, else as `u64`, else out of range.
#[derive(Debug, Clone, Copy, PartialEq, Eq)]
pub enum IntValue {
    Signed(i64),
    Unsigned(u64),
    OutOfRange,
}

/// Reads an integer's text, its `_` separators dropped, as `i64::from_str`
/// does.
pub fn int_i64(text: &str) -> (r: Option<i64>)
    ensures
        match i64_text(crate::serialize::without_underscores(text@)) {
            Some(n) => r == Some(n as i64),
            None => r is None,
        },
{
    let clean = crate::serialize::remove_underscores(&crate::text::chars_of(text));
    parse_i64(&clean)
}

/// Reads an integer's text, its `_` separators dropped, as `u64::from_str`
/// does.
pub fn int_u64(text: &str) -> (r: Option<u64>)
    ensures
        match u64_text(crate::serialize::without_underscores(text@)) {
            Some(n) => r == Some(n as u64),
            None => r is None,
        },
{
    let clean = crate::serialize::remove_underscores(&crate::text::chars_of(text));
    parse_u64(&clean)
}

/// Reads the number an integer scalar's text denotes: its `_` separators
/// dropped, then `i64::from_str`, and where that fails `u64::from_str`.
pub fn int_value(text: &str) -> (r: IntValue)
    ensures
        match i64_text(crate::serialize::without_underscores(text@)) {
            Some(n) => r == IntValue::Signed(n as i64),
            None => match u64_text(crate::serialize::without_underscores(text@)) {
                Some(n) => r == IntValue::Unsigned(n as u64),
                None => r is OutOfRange,
            },
        },
{
    let clean = crate::serialize::remove_underscores(&crate::text::chars_of(text));
    match parse_i64(&clean) {
        Some(n) => IntValue::Signed(n),
        None => match parse_u64(&clean) {
            Some(n) => IntValue::Unsigned(n),
            None => IntValue::OutOfRange,
        },
    }
}

/// Checks one `min_len`/`max_len` bound `v` against `len`. Bounds that are
/// not non-negative integers are skipped here (the schema check reports
/// them).
pub open spec fn len_bound_spec(len: nat, k: Seq<char>, v: NodeV, path: Seq<char>) -> Seq<ViolationV> {
    let bound: int = match v {
        NodeV::Scalar(sc) => match i64_text(crate::serialize::without_underscores(sc.text)) {
            Some(n) => n,
            None => -1,
        },
        _ => -1,
    };
    if bound < 0 {
        Seq::empty()
    } else if k == "min_len"@ && len < bound {
        seq![(path, "length "@ + decimal(len) + " is less than min_len "@ + int_text(bound))]
    } else if k == "max_len"@ && len > bound {
        seq![(path, "length "@ + decimal(len) + " exceeds max_len "@ + int_text(bound))]
    } else {
        Seq::empty()
    }
}

/// Checks one `min_len`/`max_len` bound against `len`, reporting a
/// violation when it fails.
fn check_len_bound(len: usize, k: &Vec<char>, v: &Node, path: &Vec<char>, out: &mut Vec<Violation>)
    ensures
        viols(final(out)@) == viols(old(out)@) + len_bound_spec(len as nat, k@, v@, path@),
{
    let bound: i64 = match v {
        Node::Scalar(sc) => {
            let t = chars_of(sc.text.as_str());
            let clean = crate::serialize::remove_underscores(&t);
            match parse_i64(&clean) {
                Some(n) => n,
                None => -1,
            }
        },
        _ => -1,
    };
    if bound < 0 {
        assert(viols(out@) =~= viols(out@) + Seq::<ViolationV>::empty());
        return;
    }
    let is_min = crate::text::chars_eq_str(k, "min_len");
    let is_max = crate::text::chars_eq_str(k, "max_len");
    if is_min && (len as i128) < (bound as i128) {
        let mut m: Vec<char> = Vec::new();
        extend_str(&mut m, "length ");
        extend(&mut m, &crate::text::usize_to_chars(len));
        extend_str(&mut m, " is less than min_len ");
        extend(&mut m, &crate::text::i64_to_chars(bound));
        push_violation(out, path, &m);
    } else if is_max && (len as i128) > (bound as i128) {
        let mut m: Vec<char> = Vec::new();
        extend_str(&mut m, "length ");
        extend(&mut m, &crate::text::usize_to_chars(len));
        extend_str(&mut m, " exceeds max_len ");
        extend(&mut m, &crate::text::i64_to_chars(bound));
        push_violation(out, path, &m);
    } else {
        assert(viols(out@) =~= viols(out@) + Seq::<ViolationV>::empty());
    }
}

/// Checks one numeric bound (`min`, `max`, `exclusive_min`,
/// `exclusive_max`) given the order of the value against it.
pub open spec fn numeric_bound_spec(ord: Order, k: Seq<char>, value: Seq<char>, bound: Seq<char>, path: Seq<char>) -> Seq<ViolationV> {
    if k == "min"@ && ord == Order::Less {
        seq![(path, "value "@ + value + " is less than min "@ + bound)]
    } else if k == "max"@ && ord == Order::Greater {
        seq![(path, "value "@ + value + " exceeds max "@ + bound)]
    } else if k == "exclusive_min"@ && ord != Order::Greater {
        seq![(path, "value "@ + value + " must be greater than exclusive_min "@ + bound)]
    } else if k == "exclusive_max"@ && ord != Order::Less {
        seq![(path, "value "@ + value + " must be less than exclusive_max "@ + bound)]
    } else {
        Seq::empty()
    }
}

/// Checks one numeric bound against the order of the value, reporting a
/// violation when it fails.
fn check_numeric_bound(ord: Order, k: &Vec<char>, value: &Vec<char>, bound: &Vec<char>, path: &Vec<char>, out: &mut Vec<Violation>)
    ensures
        viols(final(out)@) == viols(old(out)@) + numeric_bound_spec(ord, k@, value@, bound@, path@),
{
    let mut m: Vec<char> = Vec::new();
    extend_str(&mut m, "value ");
    extend(&mut m, value);
    if crate::text::chars_eq_str(k, "min") && ord == Order::Less {
        extend_str(&mut m, " is less than min ");
    } else if crate::text::chars_eq_str(k, "max") && ord == Order::Greater {
        extend_str(&mut m, " exceeds max ");
    } else if crate::text::chars_eq_str(k, "exclusive_min") && ord != Order::Greater {
        extend_str(&mut m, " must be greater than exclusive_min ");
    } else if crate::text::chars_eq_str(k, "exclusive_max") && ord != Order::Less {
        extend_str(&mut m, " must be less than exclusive_max ");
    } else {
        assert(viols(out@) =~= viols(out@) + Seq::<ViolationV>::empty());
        return;
    }
    extend(&mut m, bound);
    push_violation(out, path, &m);
}

/// What a decimal float text reads as: not a number, an infinity, or an
/// exact finite value `±0.D × 10^point` with digits `D` free of leading
/// and trailing zeros (none for zero).
pub enum FloatV {
    NaN,
    Inf(bool),
    Fin(bool, Seq<char>, int),
}

/// Exponents beyond this magnitude read as this magnitude.
pub open spec fn exp_cap() -> int {
    1_000_000_000_000_000
}

/// ASCII lowercase of a character.
pub open spec fn lower(c: char) -> char {
    if 'A' <= c <= 'Z' {
        ((c as u32) + 32) as char
    } else {
        c
    }
}

/// `s` equals the lowercase `lit` ignoring ASCII case.
pub open spec fn eq_ignore_case(s: Seq<char>, lit: Seq<char>) -> bool {
    s.len() == lit.len() && forall|i: int| 0 <= i < s.len() ==> lower(#[trigger] s[i]) == lit[i]
}

/// Number of leading `0`s.
pub open spec fn lead_zeros(s: Seq<char>) -> nat
    decreases s.len(),
{
    if s.len() > 0 && s[0] == '0' {
        1 + lead_zeros(s.drop_first())
    } else {
        0
    }
}

/// `s` without its trailing `0`s.
pub open spec fn strip_trailing_zeros(s: Seq<char>) -> Seq<char>
    decreases s.len(),
{
    if s.len() > 0 && s.last() == '0' {
        strip_trailing_zeros(s.drop_last())
    } else {
        s
    }
}

/// The value of an exponent `[+-]?[0-9]+`, clamped to the cap.
pub open spec fn exp_value(x: Seq<char>) -> int {
    let m = crate::ops::digits_value(crate::grammar::strip_sign(x)) as int;
    let c = if m > exp_cap() {
        exp_cap()
    } else {
        m
    };
    if x.len() > 0 && x[0] == '-' {
        -c
    } else {
        c
    }
}

/// What `f64::from_str` accepts, read exactly: an optional sign, then
/// `inf`, `infinity` or `nan` in any case, or digits with an optional
/// point (at least one digit in all) and an optional exponent.
pub open spec fn float_text(t: Seq<char>) -> Option<FloatV> {
    let (neg, body) = if t.len() > 0 && (t[0] == '+' || t[0] == '-') {
        (t[0] == '-', t.drop_first())
    } else {
        (false, t)
    };
    if eq_ignore_case(body, "inf"@) || eq_ignore_case(body, "infinity"@) {
        Some(FloatV::Inf(neg))
    } else if eq_ignore_case(body, "nan"@) {
        Some(FloatV::NaN)
    } else {
        finite_text(neg, body)
    }
}

/// A finite decimal `digits [. digits] [e exponent]` (at least one digit),
/// read exactly, with the given sign.
pub open spec fn finite_text(neg: bool, body: Seq<char>) -> Option<FloatV> {
    let k = index_of_either(body, 'e', 'E');
    let mant = body.take(k);
    let p = index_of_either(mant, '.', '.');
    let ip = mant.take(p);
    let fp = if p < mant.len() {
        mant.skip(p + 1)
    } else {
        Seq::<char>::empty()
    };
    let has_exp = k < body.len();
    if all_digits(ip) && all_digits(fp) && ip.len() + fp.len() > 0 && (!has_exp
        || crate::grammar::signed_digits(body.skip(k + 1))) {
        let all = ip + fp;
        let lz = lead_zeros(all);
        let e = if has_exp {
            exp_value(body.skip(k + 1))
        } else {
            0
        };
        Some(FloatV::Fin(neg, strip_trailing_zeros(all.skip(lz as int)), ip.len() - lz + e))
    } else {
        None
    }
}

/// The reverse of an order.
pub open spec fn reverse(o: Order) -> Order {
    match o {
        Order::Less => Order::Greater,
        Order::Equal => Order::Equal,
        Order::Greater => Order::Less,
    }
}

/// The order of two float values (`Equal` when either is not a number).
pub open spec fn float_order(a: FloatV, b: FloatV) -> Order {
    match (a, b) {
        (FloatV::Inf(an), FloatV::Inf(bn)) => if an == bn {
            Order::Equal
        } else if an {
            Order::Less
        } else {
            Order::Greater
        },
        (FloatV::Inf(an), FloatV::Fin(_, _, _)) => if an {
            Order::Less
        } else {
            Order::Greater
        },
        (FloatV::Fin(_, _, _), FloatV::Inf(bn)) => if bn {
            Order::Greater
        } else {
            Order::Less
        },
        (FloatV::Fin(an, ad, ap), FloatV::Fin(bn, bd, bp)) => {
            if ad.len() == 0 && bd.len() == 0 {
                Order::Equal
            } else if ad.len() == 0 {
                if bn {
                    Order::Greater
                } else {
                    Order::Less
                }
            } else if bd.len() == 0 {
                if an {
                    Order::Less
                } else {
                    Order::Greater
                }
            } else if an != bn {
                if an {
                    Order::Less
                } else {
                    Order::Greater
                }
            } else {
                let mag = if ap < bp {
                    Order::Less
                } else if ap > bp {
                    Order::Greater
                } else {
                    lex_order(ad, bd)
                };
                if an {
                    reverse(mag)
                } else {
                    mag
                }
            }
        },
        _ => Order::Equal,
    }
}

/// A float value read from text.
pub enum FloatVal {
    NaN,
    Inf(bool),
    Fin(bool, Vec<char>, i128),
}

impl FloatVal {
    pub open spec fn view(&self) -> FloatV {
        match self {
            FloatVal::NaN => FloatV::NaN,
            FloatVal::Inf(n) => FloatV::Inf(*n),
            FloatVal::Fin(n, d, p) => FloatV::Fin(*n, d@, *p as int),
        }
    }
}

/// Whether `v[lo..]` equals the lowercase `lit` ignoring ASCII case.
fn eq_ignore_case_at(v: &Vec<char>, lo: usize, lit: &str) -> (r: bool)
    requires
        lo <= v@.len(),
    ensures
        r == eq_ignore_case(v@.skip(lo as int), lit@),
{
    let l = chars_of(lit);
    if v.len() - lo != l.len() {
        return false;
    }
    let mut i: usize = 0;
    while i < l.len()
        invariant
            i <= l@.len(),
            v@.len() - lo == l@.len(),
            lo <= v@.len(),
            l@ == lit@,
            forall|j: int| 0 <= j < i ==> lower(#[trigger] v@.skip(lo as int)[j]) == l@[j],
        decreases l.len() - i,
    {
        let n = v.len();
        assert(lo + i < n);
        let c = v[lo + i];
        assert(v@.skip(lo as int)[i as int] == c);
        let lc = if c >= 'A' && c <= 'Z' {
            match crate::text::char_from_u32((c as u32) + 32) {
                Some(x) => x,
                None => c,
            }
        } else {
            c
        };
        assert(lc == lower(c));
        if lc != l[i] {
            return false;
        }
        i += 1;
    }
    true
}

/// The value of the exponent text `v[lo..]` (`[+-]?[0-9]+`), clamped.
fn read_exponent(v: &Vec<char>, lo: usize) -> (e: i128)
    requires
        lo <= v@.len(),
        crate::grammar::signed_digits(v@.skip(lo as int)),
    ensures
        e == exp_value(v@.skip(lo as int)),
{
    let ghost x = v@.skip(lo as int);
    assert(x.len() > 0);
    let n = v.len();
    assert(lo < n);
    let mut k = lo;
    if v[lo] == '+' || v[lo] == '-' {
        k = lo + 1;
    }
    assert(x[0] == v@[lo as int]);
    let ghost d = v@.skip(k as int);
    assert(d =~= crate::grammar::strip_sign(x));
    let mut value: u64 = 0;
    let mut j = k;
    assert(v@.subrange(k as int, k as int) =~= Seq::<char>::empty());
    while j < v.len()
        invariant
            k <= j <= v@.len(),
            d == v@.skip(k as int),
            crate::grammar::all_digits(d),
            value == if crate::ops::digits_value(v@.subrange(k as int, j as int)) <= exp_cap() {
                crate::ops::digits_value(v@.subrange(k as int, j as int)) as int
            } else {
                exp_cap() + 1
            },
        decreases v.len() - j,
    {
        let ghost prev = v@.subrange(k as int, j as int);
        assert(v@.subrange(k as int, j + 1).drop_last() =~= prev);
        let c = v[j];
        assert(d[j - k] == c);
        assert(crate::grammar::is_digit(c));
        let digit = (c as u32 - '0' as u32) as u64;
        proof {
            let pv = crate::ops::digits_value(prev);
            let nv = crate::ops::digits_value(v@.subrange(k as int, j + 1));
            assert(nv == pv * 10 + digit);
            if pv > exp_cap() {
                assert(nv > exp_cap()) by (nonlinear_arith)
                    requires
                        nv == pv * 10 + digit,
                        pv > exp_cap(),
                        digit >= 0,
                ;
            }
        }
        if value > 1_000_000_000_000_000u64 {
            value = 1_000_000_000_000_001u64;
        } else {
            let next = value * 10 + digit;
            value = if next > 1_000_000_000_000_000u64 { 1_000_000_000_000_001u64 } else { next };
        }
        j += 1;
    }
    assert(v@.subrange(k as int, v@.len() as int) =~= d);
    let m: i128 = if value > 1_000_000_000_000_000u64 { 1_000_000_000_000_000i128 } else { value as i128 };
    if v[lo] == '-' {
        -m
    } else {
        m
    }
}

/// Whether `v[lo..]` is `[+-]?[0-9]+`.
fn signed_digits_at(v: &Vec<char>, lo: usize) -> (r: bool)
    requires
        lo <= v@.len(),
    ensures
        r == crate::grammar::signed_digits(v@.skip(lo as int)),
{
    let n = v.len();
    let ghost x = v@.skip(lo as int);
    let mut k = lo;
    if lo < n && (v[lo] == '+' || v[lo] == '-') {
        k = lo + 1;
    }
    proof {
        if lo < n {
            assert(x[0] == v@[lo as int]);
        }
        assert(v@.subrange(k as int, n as int) =~= crate::grammar::strip_sign(x));
    }
    k < n && crate::grammar::all_digits_range(v, k, n)
}

/// `v` without its trailing `0`s, from index `lo`.
fn strip_zeros_around(v: &Vec<char>, lo: usize) -> (r: Vec<char>)
    requires
        lo <= v@.len(),
    ensures
        r@ == strip_trailing_zeros(v@.skip(lo as int)),
{
    let mut hi = v.len();
    while hi > lo && v[hi - 1] == '0'
        invariant
            lo <= hi <= v@.len(),
            strip_trailing_zeros(v@.skip(lo as int)) == strip_trailing_zeros(v@.subrange(lo as int, hi as int)),
        decreases hi,
    {
        assert(v@.subrange(lo as int, hi as int).drop_last() =~= v@.subrange(lo as int, hi - 1));
        hi -= 1;
    }
    let mut r: Vec<char> = Vec::new();
    crate::text::extend_range(&mut r, v, lo, hi);
    proof {
        if hi > lo {
            assert(v@.subrange(lo as int, hi as int).last() == v@[hi - 1]);
        }
    }
    assert(v@.subrange(lo as int, v@.len() as int) =~= v@.skip(lo as int));
    r
}

/// Number of leading `0`s of `v`.
fn count_lead_zeros(v: &Vec<char>) -> (n: usize)
    ensures
        n == lead_zeros(v@),
        n <= v@.len(),
{
    let mut n: usize = 0;
    assert(v@.skip(0) =~= v@);
    while n < v.len() && v[n] == '0'
        invariant
            n <= v@.len(),
            lead_zeros(v@) == n + lead_zeros(v@.skip(n as int)),
        decreases v.len() - n,
    {
        assert(v@.skip(n as int).drop_first() =~= v@.skip(n + 1));
        n += 1;
    }
    n
}

/// Reads `v` as `f64::from_str` does, exactly.
fn parse_float(v: &Vec<char>) -> (r: Option<FloatVal>)
    ensures
        match float_text(v@) {
            Some(f) => r matches Some(x) && x@ == f,
            None => r is None,
        },
{
    let n = v.len();
    let mut start: usize = 0;
    let mut neg = false;
    if n > 0 && (v[0] == '+' || v[0] == '-') {
        neg = v[0] == '-';
        start = 1;
    }
    let ghost body = v@.skip(start as int);
    assert(body =~= (if v@.len() > 0 && (v@[0] == '+' || v@[0] == '-') { v@.drop_first() } else { v@ }));
    if eq_ignore_case_at(v, start, "inf") || eq_ignore_case_at(v, start, "infinity") {
        return Some(FloatVal::Inf(neg));
    }
    if eq_ignore_case_at(v, start, "nan") {
        return Some(FloatVal::NaN);
    }
    parse_finite(v, start, neg)
}

/// Reads the finite decimal `v[start..]` with the given sign.
#[verifier::rlimit(40)]
fn parse_finite(v: &Vec<char>, start: usize, neg: bool) -> (r: Option<FloatVal>)
    requires
        start <= v@.len(),
    ensures
        match finite_text(neg, v@.skip(start as int)) {
            Some(f) => r matches Some(x) && x@ == f,
            None => r is None,
        },
{
    let n = v.len();
    let ghost body = v@.skip(start as int);
    let k = crate::grammar::find_either(v, start, n, 'e', 'E');
    assert(v@.subrange(start as int, n as int) =~= body);
    let p = crate::grammar::find_either(v, start, k, '.', '.');
    let ghost mant = body.take(k - start);
    assert(v@.subrange(start as int, k as int) =~= mant);
    let ghost ip = mant.take(p - start);
    assert(v@.subrange(start as int, p as int) =~= ip);
    let ghost fp = if p < k { mant.skip(p - start + 1) } else { Seq::<char>::empty() };
    let fp_lo = if p < k { p + 1 } else { k };
    assert(v@.subrange(fp_lo as int, k as int) =~= fp);
    let has_exp = k < n;
    if has_exp {
        assert(body.skip(k - start + 1) =~= v@.skip(k + 1));
    }
    let ok = crate::grammar::all_digits_range(v, start, p) && crate::grammar::all_digits_range(v, fp_lo, k)
        && (p - start) + (k - fp_lo) > 0 && (!has_exp || signed_digits_at(v, k + 1));
    if !ok {
        return None;
    }
    let mut all: Vec<char> = Vec::new();
    crate::text::extend_range(&mut all, v, start, p);
    crate::text::extend_range(&mut all, v, fp_lo, k);
    assert(all@ =~= ip + fp);
    let lz = count_lead_zeros(&all);
    let digits = strip_zeros_around(&all, lz);
    let e: i128 = if has_exp { read_exponent(v, k + 1) } else { 0 };
    let point: i128 = ((p - start) as i128) - (lz as i128) + e;
    Some(FloatVal::Fin(neg, digits, point))
}

/// The order of two float values (`Equal` when either is not a number).
fn float_compare(a: &FloatVal, b: &FloatVal) -> (r: Order)
    ensures
        r == float_order(a@, b@),
{
    match (a, b) {
        (FloatVal::Inf(an), FloatVal::Inf(bn)) => if *an == *bn {
            Order::Equal
        } else if *an {
            Order::Less
        } else {
            Order::Greater
        },
        (FloatVal::Inf(an), FloatVal::Fin(_, _, _)) => if *an {
            Order::Less
        } else {
            Order::Greater
        },
        (FloatVal::Fin(_, _, _), FloatVal::Inf(bn)) => if *bn {
            Order::Greater
        } else {
            Order::Less
        },
        (FloatVal::Fin(an, ad, ap), FloatVal::Fin(bn, bd, bp)) => {
            if ad.len() == 0 && bd.len() == 0 {
                Order::Equal
            } else if ad.len() == 0 {
                if *bn {
                    Order::Greater
                } else {
                    Order::Less
                }
            } else if bd.len() == 0 {
                if *an {
                    Order::Less
                } else {
                    Order::Greater
                }
            } else if *an != *bn {
                if *an {
                    Order::Less
                } else {
                    Order::Greater
                }
            } else {
                let mag = if *ap < *bp {
                    Order::Less
                } else if *ap > *bp {
                    Order::Greater
                } else {
                    compare_lex(ad, bd)
                };
                if *an {
                    match mag {
                        Order::Less => Order::Greater,
                        Order::Equal => Order::Equal,
                        Order::Greater => Order::Less,
                    }
                } else {
                    mag
                }
            }
        },
        _ => Order::Equal,
    }
}

/// The declaration of the outside regex type, so that it can be held.
#[verifier::external_type_specification]
#[verifier::external_body]
pub struct ExRegex(regex::Regex);

/// Whether `regex::Regex::new` accepts the pattern.
pub uninterp spec fn regex_compiles(pattern: Seq<char>) -> bool;

/// Whether the regex compiled from `pattern` matches somewhere in
/// `haystack` (`regex::Regex::is_match`).
pub uninterp spec fn regex_matches(pattern: Seq<char>, haystack: Seq<char>) -> bool;

/// A compiled regex together with the pattern it was compiled from.
pub struct CompiledPattern {
    source: String,
    re: regex::Regex,
}

impl CompiledPattern {
    /// The pattern this regex was compiled from.
    pub closed spec fn source(&self) -> Seq<char> {
        self.source@
    }

    /// Whether the regex matches somewhere in `text`: `regex::Regex::is_match`.
    /// Claimed: the answer is `regex_matches` of the pattern the regex was
    /// compiled from (the fields are private, and `compile_regex` is the
    /// only place that fills them).
    #[verifier::external_body]
    fn is_match(&self, text: &str) -> (b: bool)
        ensures
            b == regex_matches(self.source(), text@),
    {
        self.re.is_match(text)
    }
}

/// Compiles `pattern` with `regex::Regex::new`. Claimed: it succeeds
/// exactly when the crate accepts the pattern (`regex_compiles`), and the
/// result remembers the pattern.
#[verifier::external_body]
fn compile_regex(pattern: &str) -> (r: Option<CompiledPattern>)
    ensures
        r is Some <==> regex_compiles(pattern@),
        r matches Some(c) ==> c.source() == pattern@,
{
    match regex::Regex::new(pattern) {
        Ok(re) => Some(CompiledPattern { source: pattern.to_string(), re }),
        Err(_) => None,
    }
}

/// A schema pattern anchored to match the whole value.
pub open spec fn anchored(pattern: Seq<char>) -> Seq<char> {
    "^(?:"@ + pattern + ")$"@
}

/// Compiles a schema pattern, anchored to match the whole value.
fn regex_for_pattern(pattern: &Vec<char>) -> (r: Option<CompiledPattern>)
    ensures
        r is Some <==> regex_compiles(anchored(pattern@)),
        r matches Some(c) ==> c.source() == anchored(pattern@),
{
    let mut a: Vec<char> = Vec::new();
    extend_str(&mut a, "^(?:");
    extend(&mut a, pattern);
    extend_str(&mut a, ")$");
    let s = string_of(&a);
    compile_regex(s.as_str())
}

/// The `validation` map of a descriptor, if it has one.
pub open spec fn validation_map(schema: NodeV) -> Option<Seq<(Seq<char>, NodeV)>> {
    match schema {
        NodeV::Mapping(m) => match entry(m, "validation"@) {
            Some(NodeV::Mapping(vm)) => Some(vm),
            _ => None,
        },
        _ => None,
    }
}

/// The pattern constraint: the value must match the anchored pattern.
pub open spec fn pattern_spec(text: Seq<char>, pat: Seq<char>, path: Seq<char>) -> Seq<ViolationV> {
    if !regex_compiles(anchored(pat)) {
        seq![(path, "invalid pattern \""@ + pat + "\""@)]
    } else if !regex_matches(anchored(pat), text) {
        seq![(path, "value \""@ + text + "\" does not match pattern \""@ + pat + "\""@)]
    } else {
        Seq::empty()
    }
}

/// The violations of one constraint `(k, v)` on a scalar value of the
/// given builtin type.
pub open spec fn scalar_constraint_spec(b: Builtin, s: ScalarV, k: Seq<char>, v: NodeV, path: Seq<char>) -> Seq<ViolationV> {
    match b {
        Builtin::Int => match v {
            NodeV::Scalar(bs) => numeric_bound_spec(int_order_spec(s.text, bs.text), k, s.text, bs.text, path),
            _ => Seq::empty(),
        },
        Builtin::Float => match (float_text(s.text), v) {
            (Some(df), NodeV::Scalar(bs)) => {
                let bf = if bs.shape == Shape::Int {
                    float_text(crate::serialize::without_underscores(bs.text))
                } else {
                    float_text(bs.text)
                };
                if df is NaN {
                    Seq::empty()
                } else {
                    match bf {
                        Some(f) => if f is NaN {
                            Seq::empty()
                        } else {
                            numeric_bound_spec(float_order(df, f), k, s.text, bs.text, path)
                        },
                        None => Seq::empty(),
                    }
                }
            },
            _ => Seq::empty(),
        },
        Builtin::Str => if k == "min_len"@ || k == "max_len"@ {
            len_bound_spec(s.text.len(), k, v, path)
        } else if k == "pattern"@ {
            match v {
                NodeV::Scalar(ps) => pattern_spec(s.text, ps.text, path),
                _ => Seq::empty(),
            }
        } else {
            Seq::empty()
        },
        _ => Seq::empty(),
    }
}

/// The violations of the constraints `vm[i..]` on a scalar value.
pub open spec fn scalar_constraints_from(b: Builtin, s: ScalarV, vm: Seq<(Seq<char>, NodeV)>, i: int, path: Seq<char>) -> Seq<ViolationV>
    decreases vm.len() - i,
{
    if i < 0 || i >= vm.len() {
        Seq::empty()
    } else {
        scalar_constraint_spec(b, s, vm[i].0, vm[i].1, path) + scalar_constraints_from(b, s, vm, i + 1, path)
    }
}

/// The `validation` constraints of a descriptor on a scalar value that has
/// the expected shape. A float value that does not read as a number is not
/// checked.
pub open spec fn scalar_validation_spec(schema: NodeV, data: NodeV, b: Builtin, path: Seq<char>) -> Seq<ViolationV> {
    match (data, validation_map(schema)) {
        (NodeV::Scalar(s), Some(vm)) => if b == Builtin::Float && (float_text(s.text) is None || float_text(s.text) matches Some(FloatV::NaN)) {
            Seq::empty()
        } else {
            scalar_constraints_from(b, s, vm, 0, path)
        },
        _ => Seq::empty(),
    }
}

/// The length constraints `vm[i..]` on a collection of `len` items.
pub open spec fn len_constraints_from(len: nat, vm: Seq<(Seq<char>, NodeV)>, i: int, path: Seq<char>) -> Seq<ViolationV>
    decreases vm.len() - i,
{
    if i < 0 || i >= vm.len() {
        Seq::empty()
    } else {
        (if vm[i].0 == "min_len"@ || vm[i].0 == "max_len"@ {
            len_bound_spec(len, vm[i].0, vm[i].1, path)
        } else {
            Seq::empty()
        }) + len_constraints_from(len, vm, i + 1, path)
    }
}

/// The number of items of a list, or entries of a map (0 otherwise).
pub open spec fn collection_len(n: NodeV, b: Builtin) -> nat {
    match (b, n) {
        (Builtin::List, NodeV::List(l)) => l.len(),
        (Builtin::Dict, NodeV::Mapping(m)) => m.len(),
        _ => 0,
    }
}

/// The length constraints of a list or dict descriptor.
pub open spec fn collection_validation_spec(schema: NodeV, data: NodeV, b: Builtin, path: Seq<char>) -> Seq<ViolationV> {
    match validation_map(schema) {
        Some(vm) => if b == Builtin::List || b == Builtin::Dict {
            len_constraints_from(collection_len(data, b), vm, 0, path)
        } else {
            Seq::empty()
        },
        None => Seq::empty(),
    }
}

/// Checks a scalar value against the `validation` constraints of its
/// descriptor (ranges for numbers, lengths and patterns for strings).
fn check_validation_for_scalar(schema: &Node, data: &Node, b: Builtin, path: &Vec<char>, out: &mut Vec<Violation>)
    ensures
        viols(final(out)@) == viols(old(out)@) + scalar_validation_spec(schema@, data@, b, path@),
{
    assert(viols(old(out)@) =~= viols(old(out)@) + Seq::<ViolationV>::empty());
    let s = match data {
        Node::Scalar(s) => s,
        _ => return ,
    };
    let vm = match schema {
        Node::Mapping(m) => match get_entry(m, "validation") {
            Some(Node::Mapping(vm)) => vm,
            _ => return ,
        },
        _ => return ,
    };
    let text = chars_of(s.text.as_str());
    let df = if b == Builtin::Float {
        match parse_float(&text) {
            None => return ,
            Some(FloatVal::NaN) => return ,
            Some(x) => Some(x),
        }
    } else {
        None
    };
    let ghost total = scalar_constraints_from(b, s@, vm@, 0, path@);
    let mut i: usize = 0;
    while i < vm.len()
        invariant
            i <= vm@.len(),
            text@ == s@.text,
            total == scalar_constraints_from(b, s@, vm@, 0, path@),
            b == Builtin::Float ==> (df matches Some(x) && float_text(s@.text) == Some(x@) && !(x@ is NaN)),
            viols(old(out)@) + total == viols(out@) + scalar_constraints_from(b, s@, vm@, i as int, path@),
        decreases vm@.len() - i,
    {
        let k = chars_of(vm.key_at(i).as_str());
        let v = vm.node_at(i);
        let ghost before = viols(out@);
        match b {
            Builtin::Int => {
                if let Node::Scalar(bs) = v {
                    let bt = chars_of(bs.text.as_str());
                    let ord = compare_int(&text, &bt);
                    check_numeric_bound(ord, &k, &text, &bt, path, out);
                } else {
                    assert(viols(out@) =~= viols(out@) + Seq::<ViolationV>::empty());
                }
            },
            Builtin::Float => {
                if let Node::Scalar(bs) = v {
                    let bt = chars_of(bs.text.as_str());
                    let bf = if bs.shape == Shape::Int {
                        let clean = crate::serialize::remove_underscores(&bt);
                        parse_float(&clean)
                    } else {
                        parse_float(&bt)
                    };
                    match (&df, bf) {
                        (Some(d), Some(f)) => {
                            if let FloatVal::NaN = f {
                                assert(viols(out@) =~= viols(out@) + Seq::<ViolationV>::empty());
                            } else {
                                let ord = float_compare(d, &f);
                                check_numeric_bound(ord, &k, &text, &bt, path, out);
                            }
                        },
                        _ => {
                            assert(viols(out@) =~= viols(out@) + Seq::<ViolationV>::empty());
                        },
                    }
                } else {
                    assert(viols(out@) =~= viols(out@) + Seq::<ViolationV>::empty());
                }
            },
            Builtin::Str => {
                if crate::text::chars_eq_str(&k, "min_len") || crate::text::chars_eq_str(&k, "max_len") {
                    check_len_bound(text.len(), &k, v, path, out);
                } else if crate::text::chars_eq_str(&k, "pattern") {
                    if let Node::Scalar(ps) = v {
                        let pat = chars_of(ps.text.as_str());
                        check_pattern(&text, s.text.as_str(), &pat, path, out);
                    } else {
                        assert(viols(out@) =~= viols(out@) + Seq::<ViolationV>::empty());
                    }
                } else {
                    assert(viols(out@) =~= viols(out@) + Seq::<ViolationV>::empty());
                }
            },
            _ => {
                assert(viols(out@) =~= viols(out@) + Seq::<ViolationV>::empty());
            },
        }
        proof {
            let part = scalar_constraint_spec(b, s@, vm@[i as int].0, vm@[i as int].1, path@);
            assert(viols(out@) == before + part);
            assert(scalar_constraints_from(b, s@, vm@, i as int, path@) == part + scalar_constraints_from(b, s@, vm@, i + 1, path@));
            assert(before + (part + scalar_constraints_from(b, s@, vm@, i + 1, path@)) =~= (before + part) + scalar_constraints_from(b, s@, vm@, i + 1, path@));
        }
        i += 1;
    }
    assert(viols(out@) + Seq::<ViolationV>::empty() =~= viols(out@));
}

/// Checks a string value against a pattern constraint.
fn check_pattern(text: &Vec<char>, text_str: &str, pat: &Vec<char>, path: &Vec<char>, out: &mut Vec<Violation>)
    requires
        text@ == text_str@,
    ensures
        viols(final(out)@) == viols(old(out)@) + pattern_spec(text@, pat@, path@),
{
    match regex_for_pattern(pat) {
        Some(re) => {
            if !re.is_match(text_str) {
                let mut m: Vec<char> = Vec::new();
                extend_str(&mut m, "value \"");
                extend(&mut m, text);
                extend_str(&mut m, "\" does not match pattern \"");
                extend(&mut m, pat);
                extend_str(&mut m, "\"");
                push_violation(out, path, &m);
            } else {
                assert(viols(out@) =~= viols(out@) + Seq::<ViolationV>::empty());
            }
        },
        None => {
            let mut m: Vec<char> = Vec::new();
            extend_str(&mut m, "invalid pattern \"");
            extend(&mut m, pat);
            extend_str(&mut m, "\"");
            push_violation(out, path, &m);
        },
    }
}

/// Checks a list or dict against the length constraints of its
/// descriptor.
fn check_validation_for_list_or_dict(schema: &Node, data: &Node, b: Builtin, path: &Vec<char>, out: &mut Vec<Violation>)
    ensures
        viols(final(out)@) == viols(old(out)@) + collection_validation_spec(schema@, data@, b, path@),
{
    assert(viols(old(out)@) =~= viols(old(out)@) + Seq::<ViolationV>::empty());
    let vm = match schema {
        Node::Mapping(m) => match get_entry(m, "validation") {
            Some(Node::Mapping(vm)) => vm,
            _ => return ,
        },
        _ => return ,
    };
    let len: usize = match (b, data) {
        (Builtin::List, Node::List(l)) => l.len(),
        (Builtin::Dict, Node::Mapping(m)) => m.len(),
        (Builtin::List, _) => 0,
        (Builtin::Dict, _) => 0,
        _ => return ,
    };
    assert(len == collection_len(data@, b));
    let ghost total = len_constraints_from(len as nat, vm@, 0, path@);
    let mut i: usize = 0;
    while i < vm.len()
        invariant
            i <= vm@.len(),
            total == len_constraints_from(len as nat, vm@, 0, path@),
            viols(old(out)@) + total == viols(out@) + len_constraints_from(len as nat, vm@, i as int, path@),
        decreases vm@.len() - i,
    {
        let k = chars_of(vm.key_at(i).as_str());
        let ghost before = viols(out@);
        if crate::text::chars_eq_str(&k, "min_len") || crate::text::chars_eq_str(&k, "max_len") {
            check_len_bound(len, &k, vm.node_at(i), path, out);
        } else {
            assert(viols(out@) =~= viols(out@) + Seq::<ViolationV>::empty());
        }
        proof {
            let part = if vm@[i as int].0 == "min_len"@ || vm@[i as int].0 == "max_len"@ {
                len_bound_spec(len as nat, vm@[i as int].0, vm@[i as int].1, path@)
            } else {
                Seq::empty()
            };
            assert(viols(out@) == before + part);
            assert(before + (part + len_constraints_from(len as nat, vm@, i + 1, path@)) =~= (before + part) + len_constraints_from(len as nat, vm@, i + 1, path@));
        }
        i += 1;
    }
    assert(viols(out@) + Seq::<ViolationV>::empty() =~= viols(out@));
}

/// The constraint names allowed in a `validation` block of a type.
pub open spec fn constraint_allowed(b: Builtin, k: Seq<char>) -> bool {
    match b {
        Builtin::Int | Builtin::Float => is_numeric_key(k),
        Builtin::Str => k == "min_len"@ || k == "max_len"@ || k == "pattern"@,
        Builtin::List | Builtin::Dict => k == "min_len"@ || k == "max_len"@,
        Builtin::Bool => false,
    }
}

/// A numeric bound constraint name.
pub open spec fn is_numeric_key(k: Seq<char>) -> bool {
    k == "min"@ || k == "max"@ || k == "exclusive_min"@ || k == "exclusive_max"@
}

/// `t` without its leading `+` and `-` characters.
pub open spec fn strip_signs(t: Seq<char>) -> Seq<char>
    decreases t.len(),
{
    if t.len() > 0 && (t[0] == '+' || t[0] == '-') {
        strip_signs(t.drop_first())
    } else {
        t
    }
}

/// Digits after any run of signs: an integer too large for a machine
/// type still counts as one.
pub open spec fn is_big_int(t: Seq<char>) -> bool {
    strip_signs(t).len() > 0 && all_digits(strip_signs(t))
}

/// Problems with one constraint `(k, v)` of a `validation` block of type
/// `tn`: an unknown name, or a value of the wrong form.
pub open spec fn constraint_shape_spec(b: Builtin, tn: Seq<char>, k: Seq<char>, v: NodeV, path: Seq<char>) -> Seq<ViolationV> {
    let jp = join_path_spec(path, k);
    if !constraint_allowed(b, k) {
        seq![(jp, "unknown constraint `"@ + k + "` for type `"@ + tn + "`"@)]
    } else if is_numeric_key(k) {
        match v {
            NodeV::Scalar(sc) => if sc.shape == Shape::Int || sc.shape == Shape::Float {
                (if b == Builtin::Int && sc.shape != Shape::Int {
                    seq![(jp, "constraint `"@ + k + "` for `int` must be an int"@)]
                } else {
                    Seq::empty()
                }) + if sc.shape == Shape::Float {
                    if float_text(sc.text) is None {
                        seq![(jp, "invalid float value `"@ + sc.text + "` for constraint `"@ + k + "`"@)]
                    } else {
                        Seq::empty()
                    }
                } else {
                    let clean = crate::serialize::without_underscores(sc.text);
                    if !spec_is_int(clean) && !spec_is_int(sc.text) && !is_big_int(clean) {
                        seq![(jp, "invalid int value `"@ + sc.text + "` for constraint `"@ + k + "`"@)]
                    } else {
                        Seq::empty()
                    }
                }
            } else {
                seq![(jp, "constraint `"@ + k + "` must be a number"@)]
            },
            _ => seq![(jp, "constraint `"@ + k + "` must be a number"@)],
        }
    } else if k == "min_len"@ || k == "max_len"@ {
        match v {
            NodeV::Scalar(sc) => if sc.shape == Shape::Int && (i64_text(crate::serialize::without_underscores(sc.text)) matches Some(n) && n >= 0) {
                Seq::empty()
            } else {
                seq![(jp, "constraint `"@ + k + "` must be a non-negative int"@)]
            },
            _ => seq![(jp, "constraint `"@ + k + "` must be a non-negative int"@)],
        }
    } else {
        match v {
            NodeV::Scalar(sc) => if sc.shape == Shape::Str {
                if !regex_compiles(anchored(sc.text)) {
                    seq![(jp, "invalid pattern regex `"@ + sc.text + "`"@)]
                } else {
                    Seq::empty()
                }
            } else {
                seq![(jp, "constraint `pattern` must be a string"@)]
            },
            _ => seq![(jp, "constraint `pattern` must be a string"@)],
        }
    }
}

/// Problems with the constraints `vm[i..]` of a `validation` block.
pub open spec fn validation_block_from(b: Builtin, tn: Seq<char>, vm: Seq<(Seq<char>, NodeV)>, i: int, path: Seq<char>) -> Seq<ViolationV>
    decreases vm.len() - i,
{
    if i < 0 || i >= vm.len() {
        Seq::empty()
    } else {
        constraint_shape_spec(b, tn, vm[i].0, vm[i].1, path) + validation_block_from(b, tn, vm, i + 1, path)
    }
}

/// `path.k`, as characters.
fn join_str(path: &Vec<char>, k: &str) -> (r: Vec<char>)
    ensures
        r@ == join_path_spec(path@, k@),
{
    let kv = chars_of(k);
    crate::value::join_path(path, &kv)
}

/// A message `prefix k suffix`.
fn msg3(prefix: &str, k: &Vec<char>, suffix: &str) -> (m: Vec<char>)
    ensures
        m@ == prefix@ + k@ + suffix@,
{
    let mut m: Vec<char> = Vec::new();
    extend_str(&mut m, prefix);
    extend(&mut m, k);
    extend_str(&mut m, suffix);
    m
}

/// Whether `t` is digits after any run of signs.
fn big_int(t: &Vec<char>) -> (r: bool)
    ensures
        r == is_big_int(t@),
{
    let mut i: usize = 0;
    assert(t@.skip(0) =~= t@);
    while i < t.len() && (t[i] == '+' || t[i] == '-')
        invariant
            i <= t@.len(),
            strip_signs(t@) == strip_signs(t@.skip(i as int)),
        decreases t.len() - i,
    {
        assert(t@.skip(i as int).drop_first() =~= t@.skip(i + 1));
        i += 1;
    }
    proof {
        if i < t@.len() {
            assert(t@.skip(i as int)[0] == t@[i as int]);
        }
    }
    assert(t@.subrange(i as int, t@.len() as int) =~= t@.skip(i as int));
    i < t.len() && crate::grammar::all_digits_range(t, i, t.len())
}

/// Problems with one constraint of a `validation` block.
fn check_constraint_shape(b: Builtin, tn: &Vec<char>, k: &Vec<char>, v: &Node, path: &Vec<char>, out: &mut Vec<Violation>)
    ensures
        viols(final(out)@) == viols(old(out)@) + constraint_shape_spec(b, tn@, k@, v@, path@),
{
    let jp = crate::value::join_path(path, k);
    let is_num = crate::text::chars_eq_str(k, "min") || crate::text::chars_eq_str(k, "max")
        || crate::text::chars_eq_str(k, "exclusive_min") || crate::text::chars_eq_str(k, "exclusive_max");
    let is_len = crate::text::chars_eq_str(k, "min_len") || crate::text::chars_eq_str(k, "max_len");
    let is_pat = crate::text::chars_eq_str(k, "pattern");
    let allowed = match b {
        Builtin::Int | Builtin::Float => is_num,
        Builtin::Str => is_len || is_pat,
        Builtin::List | Builtin::Dict => is_len,
        Builtin::Bool => false,
    };
    let ghost o = viols(out@);
    if !allowed {
        let mut m = msg3("unknown constraint `", k, "` for type `");
        extend(&mut m, tn);
        extend_str(&mut m, "`");
        push_violation(out, &jp, &m);
        return;
    }
    if is_num {
        match v {
            Node::Scalar(sc) => {
                if sc.shape == Shape::Int || sc.shape == Shape::Float {
                    if b == Builtin::Int && sc.shape != Shape::Int {
                        let m = msg3("constraint `", k, "` for `int` must be an int");
                        push_violation(out, &jp, &m);
                    }
                    let ghost mid = viols(out@);
                    let t = chars_of(sc.text.as_str());
                    if sc.shape == Shape::Float {
                        if parse_float(&t).is_none() {
                            let mut m = msg3("invalid float value `", &t, "` for constraint `");
                            extend(&mut m, k);
                            extend_str(&mut m, "`");
                            push_violation(out, &jp, &m);
                        }
                    } else {
                        let clean = crate::serialize::remove_underscores(&t);
                        assert(clean@.subrange(0, clean@.len() as int) =~= clean@);
                        assert(t@.subrange(0, t@.len() as int) =~= t@);
                        if !crate::grammar::is_int_range(&clean, 0, clean.len()) && !crate::grammar::is_int_range(&t, 0, t.len())
                            && !big_int(&clean) {
                            let mut m = msg3("invalid int value `", &t, "` for constraint `");
                            extend(&mut m, k);
                            extend_str(&mut m, "`");
                            push_violation(out, &jp, &m);
                        }
                    }
                    assert(viols(out@) =~= o + constraint_shape_spec(b, tn@, k@, v@, path@));
                } else {
                    let m = msg3("constraint `", k, "` must be a number");
                    push_violation(out, &jp, &m);
                }
            },
            _ => {
                let m = msg3("constraint `", k, "` must be a number");
                push_violation(out, &jp, &m);
            },
        }
        return;
    }
    if is_len {
        let ok = match v {
            Node::Scalar(sc) => {
                if sc.shape == Shape::Int {
                    let t = chars_of(sc.text.as_str());
                    let clean = crate::serialize::remove_underscores(&t);
                    match parse_i64(&clean) {
                        Some(n) => n >= 0,
                        None => false,
                    }
                } else {
                    false
                }
            },
            _ => false,
        };
        if !ok {
            let m = msg3("constraint `", k, "` must be a non-negative int");
            push_violation(out, &jp, &m);
        } else {
            assert(viols(out@) =~= o + Seq::<ViolationV>::empty());
        }
        return;
    }
    match v {
        Node::Scalar(sc) => {
            if sc.shape == Shape::Str {
                let t = chars_of(sc.text.as_str());
                if regex_for_pattern(&t).is_none() {
                    let m = msg3("invalid pattern regex `", &t, "`");
                    push_violation(out, &jp, &m);
                } else {
                    assert(viols(out@) =~= o + Seq::<ViolationV>::empty());
                }
            } else {
                push_violation_str(out, &jp, "constraint `pattern` must be a string");
            }
        },
        _ => {
            push_violation_str(out, &jp, "constraint `pattern` must be a string");
        },
    }
}

/// Validates the contents of a `validation` map for the type `tname`.
fn validate_validation_block(vmap: &Mapping, tname: &Vec<char>, path: &Vec<char>, out: &mut Vec<Violation>)
    requires
        builtin_spec(tname@) is Some,
    ensures
        viols(final(out)@) == viols(old(out)@) + validation_block_from(
            builtin_spec(tname@)->0,
            tname@,
            vmap@,
            0,
            path@,
        ),
{
    let b = match builtin(tname) {
        Some(b) => b,
        None => Builtin::Bool,
    };
    let ghost total = validation_block_from(b, tname@, vmap@, 0, path@);
    let mut i: usize = 0;
    while i < vmap.len()
        invariant
            i <= vmap@.len(),
            total == validation_block_from(b, tname@, vmap@, 0, path@),
            viols(old(out)@) + total == viols(out@) + validation_block_from(b, tname@, vmap@, i as int, path@),
        decreases vmap@.len() - i,
    {
        let k = chars_of(vmap.key_at(i).as_str());
        let ghost before = viols(out@);
        check_constraint_shape(b, tname, &k, vmap.node_at(i), path, out);
        proof {
            let part = constraint_shape_spec(b, tname@, vmap@[i as int].0, vmap@[i as int].1, path@);
            assert(before + (part + validation_block_from(b, tname@, vmap@, i + 1, path@)) =~= (before + part)
                + validation_block_from(b, tname@, vmap@, i + 1, path@));
        }
        i += 1;
    }
    assert(viols(out@) + Seq::<ViolationV>::empty() =~= viols(out@));
}

/// The message for a bare `list`/`dict` leaf.
pub open spec fn container_leaf_message() -> Seq<char> {
    "`list`/`dict` may only appear in a descriptor (`type: list` / `type: dict`)"@
}

/// The message for a leaf that names no type.
pub open spec fn bad_leaf_message() -> Seq<char> {
    "schema leaf must be a type name or `{}`/`[]`"@
}

/// A map carrying descriptor keys (and so needing a `type`).
pub open spec fn has_meta_keys(m: Seq<(Seq<char>, NodeV)>) -> bool {
    entry(m, "optional"@) is Some || entry(m, "description"@) is Some || entry(m, "deprecated"@) is Some
        || entry(m, "validation"@) is Some
}

/// The keys a descriptor may carry.
pub open spec fn descriptor_key_allowed(k: Seq<char>, container: bool) -> bool {
    k == "type"@ || k == "optional"@ || k == "description"@ || k == "deprecated"@ || k == "validation"@ || (
    container && k == "element"@)
}

/// The keys a descriptor may carry, as listed in messages.
pub open spec fn descriptor_keys_text(container: bool) -> Seq<char> {
    if container {
        "type, optional, description, deprecated, validation, element"@
    } else {
        "type, optional, description, deprecated, validation"@
    }
}

/// Unknown keys among the entries `m[i..]` of a descriptor.
pub open spec fn descriptor_keys_from(m: Seq<(Seq<char>, NodeV)>, i: int, container: bool, path: Seq<char>) -> Seq<ViolationV>
    decreases m.len() - i,
{
    if i < 0 || i >= m.len() {
        Seq::empty()
    } else {
        (if descriptor_key_allowed(m[i].0, container) {
            Seq::empty()
        } else {
            seq![
                (
                    join_path_spec(path, m[i].0),
                    "unknown key `"@ + m[i].0 + "` in descriptor (expected one of "@ + descriptor_keys_text(container)
                        + ")"@,
                ),
            ]
        }) + descriptor_keys_from(m, i + 1, container, path)
    }
}

/// A string scalar.
pub open spec fn is_str_scalar(n: NodeV) -> bool {
    n matches NodeV::Scalar(s) && s.shape == Shape::Str
}

/// A `description` that is not a string.
pub open spec fn description_issues(m: Seq<(Seq<char>, NodeV)>, path: Seq<char>) -> Seq<ViolationV> {
    match entry(m, "description"@) {
        Some(d) => if is_str_scalar(d) {
            Seq::empty()
        } else {
            seq![(join_path_spec(path, "description"@), "`description` must be a string"@)]
        },
        None => Seq::empty(),
    }
}

/// Problems with the entries `dm[i..]` of a `deprecated` block.
pub open spec fn deprecated_from(dm: Seq<(Seq<char>, NodeV)>, i: int, dpath: Seq<char>) -> Seq<ViolationV>
    decreases dm.len() - i,
{
    if i < 0 || i >= dm.len() {
        Seq::empty()
    } else {
        let k = dm[i].0;
        (if k != "reason"@ && k != "since"@ {
            seq![(join_path_spec(dpath, k), "unknown key `"@ + k + "` in `deprecated` (expected one of reason, since)"@)]
        } else if is_str_scalar(dm[i].1) {
            Seq::empty()
        } else {
            seq![(join_path_spec(dpath, k), "`deprecated."@ + k + "` must be a string"@)]
        }) + deprecated_from(dm, i + 1, dpath)
    }
}

/// Problems with a `deprecated` block.
pub open spec fn deprecated_issues(m: Seq<(Seq<char>, NodeV)>, path: Seq<char>) -> Seq<ViolationV> {
    match entry(m, "deprecated"@) {
        Some(NodeV::Mapping(dm)) => deprecated_from(dm, 0, join_path_spec(path, "deprecated"@)),
        Some(_) => seq![(join_path_spec(path, "deprecated"@), "`deprecated` must be a dict"@)],
        None => Seq::empty(),
    }
}

/// An `optional` that is not a boolean.
pub open spec fn optional_issues(m: Seq<(Seq<char>, NodeV)>, path: Seq<char>) -> Seq<ViolationV> {
    match entry(m, "optional"@) {
        Some(o) => if o matches NodeV::Scalar(s) && s.shape == Shape::Bool {
            Seq::empty()
        } else {
            seq![(join_path_spec(path, "optional"@), "`optional` must be `true` or `false`"@)]
        },
        None => Seq::empty(),
    }
}

/// Problems with a `validation` block.
pub open spec fn validation_issues(m: Seq<(Seq<char>, NodeV)>, b: Builtin, name: Seq<char>, path: Seq<char>) -> Seq<ViolationV> {
    match entry(m, "validation"@) {
        Some(NodeV::Mapping(vm)) => validation_block_from(b, name, vm, 0, join_path_spec(path, "validation"@)),
        Some(_) => seq![(join_path_spec(path, "validation"@), "`validation` must be a dict"@)],
        None => Seq::empty(),
    }
}

/// What part of a schema node is being validated.
pub enum VMode {
    /// The node as a schema leaf or subtree.
    Node,
    /// The entries of a plain map from the given one on.
    Entries(nat),
    /// The node as a descriptor of the named type.
    Descriptor(Seq<char>),
}

/// Roles that hand on to another role of the same node rank higher.
pub open spec fn vrank(m: VMode) -> nat {
    match m {
        VMode::Node => 2,
        VMode::Descriptor(_) => 1,
        VMode::Entries(_) => 0,
    }
}

/// Entries still to validate.
pub open spec fn vleft(schema: NodeV, m: VMode) -> nat {
    match (m, schema) {
        (VMode::Entries(k), NodeV::Mapping(e)) => if k < e.len() {
            (e.len() - k) as nat
        } else {
            0
        },
        _ => 0,
    }
}

/// The problems of a descriptor's `element` entry: only containers may
/// have one, it must be a well-formed schema, and a list must have one.
pub open spec fn element_issues(m: Seq<(Seq<char>, NodeV)>, name: Seq<char>, path: Seq<char>) -> Seq<ViolationV>
    decreases m, 0nat, 0nat,
{
    match map_find(m, "element"@) {
        Some(i) => if 0 <= i < m.len() {
            if name == "list"@ || name == "dict"@ {
                schema_issues(m[i].1, VMode::Node, join_path_spec(path, "element"@))
            } else {
                seq![(join_path_spec(path, "element"@), "`element` is only valid for `type: list` / `type: dict`"@)]
            }
        } else {
            Seq::empty()
        },
        None => if name == "list"@ {
            seq![(path, "type: list requires an `element` key"@)]
        } else {
            Seq::empty()
        },
    }
}

/// The structural problems of a schema node, in the order they are
/// reported. A well-formed schema is a bare tree whose leaves are builtin
/// type names, `{}`/`[]` literals, or descriptor maps carrying a `type`.
pub open spec fn schema_issues(schema: NodeV, mode: VMode, path: Seq<char>) -> Seq<ViolationV>
    decreases schema, vrank(mode), vleft(schema, mode),
{
    match mode {
        VMode::Node => match schema {
            NodeV::Scalar(_) => match descriptor_spec(schema) {
                Some((name, _)) => if name == "list"@ || name == "dict"@ {
                    seq![(path, container_leaf_message())]
                } else if builtin_spec(name) is None {
                    seq![(path, "unknown type `"@ + name + "`"@)]
                } else {
                    Seq::empty()
                },
                None => seq![(path, bad_leaf_message())],
            },
            NodeV::Mapping(m) => if m.len() == 0 {
                Seq::empty()
            } else {
                match descriptor_spec(schema) {
                    Some((name, _)) => schema_issues(schema, VMode::Descriptor(name), path),
                    None => if has_meta_keys(m) {
                        seq![(path, "descriptor requires a `type` key"@)]
                    } else {
                        schema_issues(schema, VMode::Entries(0), path)
                    },
                }
            },
            NodeV::List(l) => if l.len() == 0 {
                Seq::empty()
            } else if l.len() != 1 {
                seq![(path, "schema list must declare exactly one element type, found "@ + decimal(l.len()))]
            } else {
                schema_issues(l[0], VMode::Node, path + "[0]"@)
            },
        },
        VMode::Entries(k) => match schema {
            NodeV::Mapping(m) => if k < m.len() {
                schema_issues(m[k as int].1, VMode::Node, join_path_spec(path, m[k as int].0)) + schema_issues(
                    schema,
                    VMode::Entries(k + 1),
                    path,
                )
            } else {
                Seq::empty()
            },
            _ => Seq::empty(),
        },
        VMode::Descriptor(name) => match schema {
            NodeV::Mapping(m) => match builtin_spec(name) {
                None => seq![(path, "unknown type `"@ + name + "`"@)],
                Some(b) => {
                    let container = name == "list"@ || name == "dict"@;
                    descriptor_keys_from(m, 0, container, path) + description_issues(m, path) + deprecated_issues(
                        m,
                        path,
                    ) + optional_issues(m, path) + element_issues(m, name, path) + validation_issues(
                        m,
                        b,
                        name,
                        path,
                    )
                },
            },
            _ => Seq::empty(),
        },
    }
}

/// Collects the structural problems of a schema tree. A well-formed
/// schema is a bare tree whose leaves are builtin type names, `{}`/`[]`
/// literals, or descriptor maps carrying a `type`. Call with `path = ""`
/// at the root; the dotted path is threaded through nested nodes.
pub fn validate_schema(schema: &Node, path: &str, out: &mut Vec<Violation>)
    ensures
        viols(final(out)@) == viols(old(out)@) + schema_issues(schema@, VMode::Node, path@),
{
    let p = chars_of(path);
    validate_node(schema, &p, out)
}

/// Whether a map carries descriptor keys.
fn has_meta(m: &Mapping) -> (r: bool)
    ensures
        r == has_meta_keys(m@),
{
    get_entry(m, "optional").is_some() || get_entry(m, "description").is_some() || get_entry(
        m,
        "deprecated",
    ).is_some() || get_entry(m, "validation").is_some()
}

/// The structural problems of one schema node.
fn validate_node(schema: &Node, path: &Vec<char>, out: &mut Vec<Violation>)
    ensures
        viols(final(out)@) == viols(old(out)@) + schema_issues(schema@, VMode::Node, path@),
    decreases schema, 1nat,
{
    assert(viols(old(out)@) =~= viols(old(out)@) + Seq::<ViolationV>::empty());
    match schema {
        Node::Scalar(_) => match descriptor(schema) {
            Some((name, _)) => {
                if crate::text::chars_eq_str(&name, "list") || crate::text::chars_eq_str(&name, "dict") {
                    push_violation_str(out, path, "`list`/`dict` may only appear in a descriptor (`type: list` / `type: dict`)");
                } else if builtin(&name).is_none() {
                    let m = msg3("unknown type `", &name, "`");
                    push_violation(out, path, &m);
                }
            },
            None => {
                push_violation_str(out, path, "schema leaf must be a type name or `{}`/`[]`");
            },
        },
        Node::Mapping(m) => {
            if m.is_empty() {
                return ;
            }
            match descriptor(schema) {
                Some((name, _)) => {
                    validate_descriptor_schema(m, &name, path, out);
                },
                None => {
                    if has_meta(m) {
                        push_violation_str(out, path, "descriptor requires a `type` key");
                    } else {
                        validate_entries(m, path, out);
                    }
                },
            }
        },
        Node::List(items) => {
            proof {
                crate::serialize::lemma_list_view_pub(schema, items);
            }
            if items.len() == 0 {
                return ;
            }
            if items.len() != 1 {
                let mut msg: Vec<char> = Vec::new();
                extend_str(&mut msg, "schema list must declare exactly one element type, found ");
                extend(&mut msg, &crate::text::usize_to_chars(items.len()));
                push_violation(out, path, &msg);
                return ;
            }
            let mut p0: Vec<char> = Vec::new();
            extend(&mut p0, path);
            extend_str(&mut p0, "[0]");
            proof {
                assert(decreases_to!(items => items@[0]));
            }
            validate_node(&items[0], &p0, out);
        },
    }
}

/// The structural problems of the entries of a plain schema map.
fn validate_entries(m: &Mapping, path: &Vec<char>, out: &mut Vec<Violation>)
    ensures
        viols(final(out)@) == viols(old(out)@) + schema_issues(NodeV::Mapping(m@), VMode::Entries(0), path@),
    decreases m, 0nat,
{
    let ghost n = NodeV::Mapping(m@);
    let ghost total = schema_issues(n, VMode::Entries(0), path@);
    let mut k: usize = 0;
    assert(viols(old(out)@) + total =~= viols(out@) + schema_issues(n, VMode::Entries(0), path@));
    while k < m.len()
        invariant
            k <= m@.len(),
            n == NodeV::Mapping(m@),
            total == schema_issues(n, VMode::Entries(0), path@),
            viols(old(out)@) + total == viols(out@) + schema_issues(n, VMode::Entries(k as nat), path@),
        decreases m@.len() - k,
    {
        let child = m.node_at(k);
        let key = chars_of(m.key_at(k).as_str());
        let p = crate::value::join_path(path, &key);
        let ghost before = viols(out@);
        validate_node(child, &p, out);
        proof {
            let part = schema_issues(child@, VMode::Node, p@);
            let rest = schema_issues(n, VMode::Entries((k + 1) as nat), path@);
            assert(schema_issues(n, VMode::Entries(k as nat), path@) == part + rest);
            assert(before + (part + rest) =~= (before + part) + rest);
        }
        k += 1;
    }
    assert(viols(out@) + Seq::<ViolationV>::empty() =~= viols(out@));
}

/// Unknown keys of a descriptor.
fn check_descriptor_keys(m: &Mapping, container: bool, path: &Vec<char>, out: &mut Vec<Violation>)
    ensures
        viols(final(out)@) == viols(old(out)@) + descriptor_keys_from(m@, 0, container, path@),
{
    let ghost total = descriptor_keys_from(m@, 0, container, path@);
    let mut i: usize = 0;
    while i < m.len()
        invariant
            i <= m@.len(),
            total == descriptor_keys_from(m@, 0, container, path@),
            viols(old(out)@) + total == viols(out@) + descriptor_keys_from(m@, i as int, container, path@),
        decreases m@.len() - i,
    {
        let k = chars_of(m.key_at(i).as_str());
        let ghost before = viols(out@);
        let allowed = crate::text::chars_eq_str(&k, "type") || crate::text::chars_eq_str(&k, "optional")
            || crate::text::chars_eq_str(&k, "description") || crate::text::chars_eq_str(&k, "deprecated")
            || crate::text::chars_eq_str(&k, "validation") || (container && crate::text::chars_eq_str(&k, "element"));
        if !allowed {
            let p = crate::value::join_path(path, &k);
            let mut msg = msg3("unknown key `", &k, "` in descriptor (expected one of ");
            if container {
                extend_str(&mut msg, "type, optional, description, deprecated, validation, element");
            } else {
                extend_str(&mut msg, "type, optional, description, deprecated, validation");
            }
            extend_str(&mut msg, ")");
            push_violation(out, &p, &msg);
        } else {
            assert(viols(out@) =~= viols(out@) + Seq::<ViolationV>::empty());
        }
        proof {
            let part = if descriptor_key_allowed(m@[i as int].0, container) {
                Seq::<ViolationV>::empty()
            } else {
                seq![
                    (
                        join_path_spec(path@, m@[i as int].0),
                        "unknown key `"@ + m@[i as int].0 + "` in descriptor (expected one of "@
                            + descriptor_keys_text(container) + ")"@,
                    ),
                ]
            };
            assert(viols(out@) =~= before + part);
            let rest = descriptor_keys_from(m@, i + 1, container, path@);
            assert(before + (part + rest) =~= (before + part) + rest);
        }
        i += 1;
    }
    assert(viols(out@) + Seq::<ViolationV>::empty() =~= viols(out@));
}

/// Whether a node is a string scalar.
fn str_scalar(n: &Node) -> (r: bool)
    ensures
        r == is_str_scalar(n@),
{
    match n {
        Node::Scalar(s) => s.shape == Shape::Str,
        _ => false,
    }
}

/// Problems with the entries of a `deprecated` block.
fn check_deprecated(dm: &Mapping, dpath: &Vec<char>, out: &mut Vec<Violation>)
    ensures
        viols(final(out)@) == viols(old(out)@) + deprecated_from(dm@, 0, dpath@),
{
    let ghost total = deprecated_from(dm@, 0, dpath@);
    let mut i: usize = 0;
    while i < dm.len()
        invariant
            i <= dm@.len(),
            total == deprecated_from(dm@, 0, dpath@),
            viols(old(out)@) + total == viols(out@) + deprecated_from(dm@, i as int, dpath@),
        decreases dm@.len() - i,
    {
        let k = chars_of(dm.key_at(i).as_str());
        let ghost before = viols(out@);
        let p = crate::value::join_path(dpath, &k);
        if !crate::text::chars_eq_str(&k, "reason") && !crate::text::chars_eq_str(&k, "since") {
            let msg = msg3("unknown key `", &k, "` in `deprecated` (expected one of reason, since)");
            push_violation(out, &p, &msg);
        } else if str_scalar(dm.node_at(i)) {
            assert(viols(out@) =~= viols(out@) + Seq::<ViolationV>::empty());
        } else {
            let msg = msg3("`deprecated.", &k, "` must be a string");
            push_violation(out, &p, &msg);
        }
        proof {
            let rest = deprecated_from(dm@, i + 1, dpath@);
            let whole = deprecated_from(dm@, i as int, dpath@);
            let part = whole.take(whole.len() - rest.len());
            assert(whole =~= part + rest);
            assert(viols(out@) =~= before + part);
            assert(before + (part + rest) =~= (before + part) + rest);
        }
        i += 1;
    }
    assert(viols(out@) + Seq::<ViolationV>::empty() =~= viols(out@));
}

/// A `description` that is not a string.
fn check_description(m: &Mapping, path: &Vec<char>, out: &mut Vec<Violation>)
    ensures
        viols(final(out)@) == viols(old(out)@) + description_issues(m@, path@),
{
    match get_entry(m, "description") {
        Some(d) => {
            if !str_scalar(d) {
                let p = join_str(path, "description");
                push_violation_str(out, &p, "`description` must be a string");
            } else {
                assert(viols(out@) =~= viols(out@) + Seq::<ViolationV>::empty());
            }
        },
        None => {
            assert(viols(out@) =~= viols(out@) + Seq::<ViolationV>::empty());
        },
    }
}

/// Problems with a `deprecated` block.
fn check_deprecated_block(m: &Mapping, path: &Vec<char>, out: &mut Vec<Violation>)
    ensures
        viols(final(out)@) == viols(old(out)@) + deprecated_issues(m@, path@),
{
    match get_entry(m, "deprecated") {
        Some(Node::Mapping(dm)) => {
            let p = join_str(path, "deprecated");
            check_deprecated(dm, &p, out);
        },
        Some(_) => {
            let p = join_str(path, "deprecated");
            push_violation_str(out, &p, "`deprecated` must be a dict");
        },
        None => {
            assert(viols(out@) =~= viols(out@) + Seq::<ViolationV>::empty());
        },
    }
}

/// An `optional` that is not a boolean.
fn check_optional(m: &Mapping, path: &Vec<char>, out: &mut Vec<Violation>)
    ensures
        viols(final(out)@) == viols(old(out)@) + optional_issues(m@, path@),
{
    match get_entry(m, "optional") {
        Some(Node::Scalar(o)) => {
            if o.shape != Shape::Bool {
                let p = join_str(path, "optional");
                push_violation_str(out, &p, "`optional` must be `true` or `false`");
            } else {
                assert(viols(out@) =~= viols(out@) + Seq::<ViolationV>::empty());
            }
        },
        Some(_) => {
            let p = join_str(path, "optional");
            push_violation_str(out, &p, "`optional` must be `true` or `false`");
        },
        None => {
            assert(viols(out@) =~= viols(out@) + Seq::<ViolationV>::empty());
        },
    }
}

/// Problems with a `validation` block.
fn check_validation_block(m: &Mapping, b: Builtin, tname: &Vec<char>, path: &Vec<char>, out: &mut Vec<Violation>)
    requires
        builtin_spec(tname@) == Some(b),
    ensures
        viols(final(out)@) == viols(old(out)@) + validation_issues(m@, b, tname@, path@),
{
    match get_entry(m, "validation") {
        Some(Node::Mapping(vm)) => {
            let p = join_str(path, "validation");
            validate_validation_block(vm, tname, &p, out);
        },
        Some(_) => {
            let p = join_str(path, "validation");
            push_violation_str(out, &p, "`validation` must be a dict");
        },
        None => {
            assert(viols(out@) =~= viols(out@) + Seq::<ViolationV>::empty());
        },
    }
}

/// The problems of a descriptor's `element` entry.
fn check_element(m: &Mapping, tname: &Vec<char>, path: &Vec<char>, out: &mut Vec<Violation>)
    ensures
        viols(final(out)@) == viols(old(out)@) + element_issues(m@, tname@, path@),
    decreases m, 0nat,
{
    let container = crate::text::chars_eq_str(tname, "list") || crate::text::chars_eq_str(tname, "dict");
    let ek = chars_of("element");
    match m.find(&ek) {
        Some(i) => {
            let p = join_str(path, "element");
            if container {
                validate_node(m.node_at(i), &p, out);
            } else {
                push_violation_str(out, &p, "`element` is only valid for `type: list` / `type: dict`");
            }
        },
        None => {
            if crate::text::chars_eq_str(tname, "list") {
                push_violation_str(out, path, "type: list requires an `element` key");
            } else {
                assert(viols(out@) =~= viols(out@) + Seq::<ViolationV>::empty());
            }
        },
    }
}

/// Validates a descriptor map's internal structure for the type `tname`.
#[verifier::spinoff_prover]
#[verifier::rlimit(80)]
fn validate_descriptor_schema(m: &Mapping, tname: &Vec<char>, path: &Vec<char>, out: &mut Vec<Violation>)
    ensures
        viols(final(out)@) == viols(old(out)@) + schema_issues(NodeV::Mapping(m@), VMode::Descriptor(tname@), path@),
    decreases m, 1nat,
{
    let ghost o0 = viols(out@);
    let b = match builtin(tname) {
        Some(b) => b,
        None => {
            let msg = msg3("unknown type `", tname, "`");
            push_violation(out, path, &msg);
            return ;
        },
    };
    let container = crate::text::chars_eq_str(tname, "list") || crate::text::chars_eq_str(tname, "dict");
    check_descriptor_keys(m, container, path, out);
    let ghost o1 = viols(out@);
    check_description(m, path, out);
    let ghost o2 = viols(out@);
    check_deprecated_block(m, path, out);
    let ghost o3 = viols(out@);
    check_optional(m, path, out);
    let ghost o4 = viols(out@);
    check_element(m, tname, path, out);
    let ghost o5 = viols(out@);
    check_validation_block(m, b, tname, path, out);
    proof {
        assert(container == (tname@ == "list"@ || tname@ == "dict"@));
        let d = descriptor_keys_from(m@, 0, container, path@);
        let e = description_issues(m@, path@);
        let f = deprecated_issues(m@, path@);
        let g = optional_issues(m@, path@);
        let h = element_issues(m@, tname@, path@);
        let j = validation_issues(m@, b, tname@, path@);
        assert(o2 =~= o0 + (d + e));
        assert(o3 =~= o0 + (d + e + f));
        assert(o4 =~= o0 + (d + e + f + g));
        assert(o5 =~= o0 + (d + e + f + g + h));
        assert(viols(out@) =~= o0 + (d + e + f + g + h + j));
        assert(schema_issues(NodeV::Mapping(m@), VMode::Descriptor(tname@), path@) == d + e + f + g + h + j);
    }
}

/// What verifying `doc` against `schema` yields: the schema's own problems
/// first, then the document's violations, then success.
pub open spec fn verify_outcome(r: Result<(), VerifyError>, doc: NodeV, schema: NodeV) -> bool {
    let issues = schema_issues(schema, VMode::Node, Seq::empty());
    let found = check::check_issues(schema, doc, check::CMode::Node, Seq::empty());
    if issues.len() > 0 {
        r matches Err(VerifyError::SchemaMalformed(vs)) && viols(vs@) == issues
    } else if found.len() > 0 {
        r matches Err(VerifyError::Violations(vs)) && viols(vs@) == found
    } else {
        r is Ok
    }
}

/// Verifies `doc` against a schema document: a bare tree whose leaf values
/// are builtin type names or the `{}`/`[]` literals. A malformed schema is
/// reported as such, before and instead of any document violation.
pub fn verify(doc: &Node, schema: &Node) -> (r: Result<(), VerifyError>)
    ensures
        verify_outcome(r, doc@, schema@),
{
    let mut issues: Vec<Violation> = Vec::new();
    validate_schema(schema, "", &mut issues);
    proof {
        reveal_strlit("");
        assert(""@ =~= Seq::<char>::empty());
        assert(viols(Seq::<Violation>::empty()) =~= Seq::<ViolationV>::empty());
        assert(viols(issues@) =~= schema_issues(schema@, VMode::Node, Seq::empty()));
    }
    if issues.len() > 0 {
        return Err(VerifyError::SchemaMalformed(issues));
    }
    let mut out: Vec<Violation> = Vec::new();
    let root: Vec<char> = Vec::new();
    check::check(schema, doc, &root, &mut out);
    proof {
        assert(viols(out@) =~= check::check_issues(schema@, doc@, check::CMode::Node, Seq::empty()));
    }
    if out.len() == 0 {
        Ok(())
    } else {
        Err(VerifyError::Violations(out))
    }
}

/// Parses a data document and a schema document and verifies the former
/// against the latter. A document that does not parse is reported before
/// a schema that does not parse.
pub fn verify_from_str(doc: &str, schema: &str) -> (r: Result<(), VerifyError>)
    requires
        doc@.len() <= text_limit(),
        schema@.len() <= text_limit(),
    ensures
        match crate::deserialize::document_spec(doc@) {
            Err(d) => r matches Err(VerifyError::ParseDoc(e)) && crate::lexer::error_is(e, d),
            Ok(dn) => match crate::deserialize::document_spec(schema@) {
                Err(d) => r matches Err(VerifyError::ParseSchema(e)) && crate::lexer::error_is(e, d),
                Ok(sn) => verify_outcome(r, dn, sn),
            },
        },
{
    let d = match crate::deserialize::from_str(doc) {
        Ok(d) => d,
        Err(e) => return Err(VerifyError::ParseDoc(e)),
    };
    let s = match crate::deserialize::from_str(schema) {
        Ok(s) => s,
        Err(e) => return Err(VerifyError::ParseSchema(e)),
    };
    let r = verify(&d, &s);
    assert(verify_outcome(r, d@, s@));
    r
}

} // verus!

verus! {

/// A malformed schema is reported as such, with the same problems, whatever
/// document it is applied to: no document violation is ever mixed in.
pub proof fn lemma_malformed_schema_ignores_document(
    r1: Result<(), VerifyError>,
    r2: Result<(), VerifyError>,
    d1: NodeV,
    d2: NodeV,
    schema: NodeV,
)
    requires
        schema_issues(schema, VMode::Node, Seq::empty()).len() > 0,
        verify_outcome(r1, d1, schema),
        verify_outcome(r2, d2, schema),
    ensures
        r1 matches Err(VerifyError::SchemaMalformed(v1)) && r2 matches Err(VerifyError::SchemaMalformed(v2))
            && viols(v1@) == viols(v2@) && viols(v1@) == schema_issues(schema, VMode::Node, Seq::empty()),
{
}

} // verus!

verus! {

/// `10` to the power `n`.
pub open spec fn pow10(n: nat) -> nat
    decreases n,
{
    if n == 0 {
        1
    } else {
        10 * pow10((n - 1) as nat)
    }
}

/// The number an integer literal text spells: its sign, then the value of
/// its digits once the `_` separators are dropped.
pub open spec fn int_text_value(t: Seq<char>) -> int {
    let (neg, d) = split_sign(crate::serialize::without_underscores(t));
    if neg {
        -(crate::ops::digits_value(d) as int)
    } else {
        crate::ops::digits_value(d) as int
    }
}

/// The order of two numbers.
pub open spec fn order_of(x: int, y: int) -> Order {
    if x < y {
        Order::Less
    } else if x > y {
        Order::Greater
    } else {
        Order::Equal
    }
}

/// The value of one digit.
spec fn digit_value(c: char) -> int {
    c as u32 - '0' as u32
}

proof fn lemma_pow10_mono(i: nat, j: nat)
    requires
        i <= j,
    ensures
        1 <= pow10(i) <= pow10(j),
    decreases j,
{
    if i < j {
        lemma_pow10_mono(i, (j - 1) as nat);
    } else if j > 0 {
        lemma_pow10_mono((j - 1) as nat, (j - 1) as nat);
    }
}

/// The value of a digit string read from its first digit on.
proof fn lemma_value_front(d: Seq<char>)
    requires
        d.len() > 0,
        all_digits(d),
    ensures
        crate::ops::digits_value(d) == digit_value(d[0]) * pow10((d.len() - 1) as nat) + crate::ops::digits_value(
            d.drop_first(),
        ),
    decreases d.len(),
{
    let dv = |x: Seq<char>| crate::ops::digits_value(x);
    if d.len() == 1 {
        assert(d.drop_last() =~= Seq::<char>::empty());
        assert(d.drop_first() =~= Seq::<char>::empty());
        assert(d.last() == d[0]);
        assert(crate::grammar::is_digit(d[0]));
        assert(dv(d.drop_last()) == 0);
        assert(dv(d.drop_first()) == 0);
        assert(pow10(0) == 1);
        assert(dv(d) == digit_value(d[0]));
        assert(digit_value(d[0]) * 1 == digit_value(d[0]));
    } else {
        assert(all_digits(d.drop_last()));
        assert(crate::grammar::is_digit(d.last()));
        lemma_value_front(d.drop_last());
        assert(d.drop_last().drop_first() =~= d.drop_first().drop_last());
        assert(d.drop_first().last() == d.last());
        assert(d.drop_last()[0] == d[0]);
        let a = digit_value(d[0]);
        let p = pow10((d.len() - 2) as nat);
        let r = dv(d.drop_last().drop_first());
        let l = digit_value(d.last());
        assert(pow10((d.len() - 1) as nat) == 10 * p);
        assert(dv(d.drop_last()) == a * p + r);
        assert(dv(d) == dv(d.drop_last()) * 10 + l);
        assert(dv(d.drop_first()) == dv(d.drop_first().drop_last()) * 10 + l);
        assert(dv(d.drop_first()) == r * 10 + l);
        assert((a * p + r) * 10 + l == a * (10 * p) + (r * 10 + l)) by (nonlinear_arith);
        assert(dv(d) == a * pow10((d.len() - 1) as nat) + dv(d.drop_first()));
    }
}

/// A digit string is below the next power of ten, and a string without a
/// leading zero is at least the power of ten below it.
proof fn lemma_value_bounds(d: Seq<char>)
    requires
        all_digits(d),
    ensures
        crate::ops::digits_value(d) < pow10(d.len()),
        d.len() > 0 && d[0] != '0' ==> crate::ops::digits_value(d) >= pow10((d.len() - 1) as nat),
    decreases d.len(),
{
    if d.len() > 0 {
        lemma_value_bounds(d.drop_last());
        let v = crate::ops::digits_value(d.drop_last());
        let p = pow10(d.drop_last().len());
        assert(crate::grammar::is_digit(d.last()));
        let l = digit_value(d.last());
        assert(v < p ==> v * 10 + l < 10 * p) by (nonlinear_arith)
            requires
                0 <= l < 10,
        ;
        if d[0] != '0' {
            lemma_value_front(d);
            let a = digit_value(d[0]);
            let q = pow10((d.len() - 1) as nat);
            assert(a >= 1 ==> a * q >= q) by (nonlinear_arith)
                requires
                    q >= 0,
            ;
        }
    }
}

/// Equal-length digit strings compare as their values.
proof fn lemma_lex_by_value(x: Seq<char>, y: Seq<char>)
    requires
        x.len() == y.len(),
        all_digits(x),
        all_digits(y),
    ensures
        lex_order(x, y) == order_of(crate::ops::digits_value(x) as int, crate::ops::digits_value(y) as int),
    decreases x.len(),
{
    if x.len() > 0 {
        lemma_value_front(x);
        lemma_value_front(y);
        lemma_value_bounds(x.drop_first());
        lemma_value_bounds(y.drop_first());
        assert(all_digits(x.drop_first()));
        assert(all_digits(y.drop_first()));
        lemma_lex_by_value(x.drop_first(), y.drop_first());
        assert(crate::grammar::is_digit(x[0]));
        assert(crate::grammar::is_digit(y[0]));
        let a = digit_value(x[0]);
        let b = digit_value(y[0]);
        let p = pow10((x.len() - 1) as nat);
        let rx = crate::ops::digits_value(x.drop_first()) as int;
        let ry = crate::ops::digits_value(y.drop_first()) as int;
        assert(a < b && 0 <= rx < p && 0 <= ry ==> a * p + rx < b * p + ry) by (nonlinear_arith);
        assert(a > b && 0 <= ry < p && 0 <= rx ==> a * p + rx > b * p + ry) by (nonlinear_arith);
    }
}

/// A digit string keeps its value without its leading zeros, and what is
/// left has no leading zero.
proof fn lemma_strip_zeros_value(d: Seq<char>)
    requires
        all_digits(d),
    ensures
        crate::ops::digits_value(strip_zeros(d)) == crate::ops::digits_value(d),
        all_digits(strip_zeros(d)),
        strip_zeros(d).len() > 0 ==> strip_zeros(d)[0] != '0',
    decreases d.len(),
{
    if d.len() > 0 && d[0] == '0' {
        assert(all_digits(d.drop_first()));
        lemma_strip_zeros_value(d.drop_first());
        lemma_value_front(d);
        assert(digit_value(d[0]) == 0);
    }
}

/// ASCII digits take one byte each.
proof fn lemma_digits_bytes(d: Seq<char>)
    requires
        all_digits(d),
    ensures
        crate::text::bytes_len(d) == d.len(),
    decreases d.len(),
{
    if d.len() > 0 {
        assert(crate::grammar::is_digit(d.last()));
        lemma_digits_bytes(d.drop_last());
    }
}

/// Normalized digit strings compare as their values.
proof fn lemma_abs_by_value(x: Seq<char>, y: Seq<char>)
    requires
        all_digits(x),
        all_digits(y),
        x.len() > 0,
        y.len() > 0,
        x[0] != '0' || x == seq!['0'],
        y[0] != '0' || y == seq!['0'],
    ensures
        abs_order_spec(x, y) == order_of(crate::ops::digits_value(x) as int, crate::ops::digits_value(y) as int),
{
    lemma_digits_bytes(x);
    lemma_digits_bytes(y);
    lemma_value_bounds(x);
    lemma_value_bounds(y);
    if x.len() < y.len() {
        assert(y != seq!['0']);
        lemma_pow10_mono(x.len(), (y.len() - 1) as nat);
    } else if x.len() > y.len() {
        assert(x != seq!['0']);
        lemma_pow10_mono(y.len(), (x.len() - 1) as nat);
    } else {
        lemma_lex_by_value(x, y);
    }
}

/// Integer bounds compare by value: for literal texts whose digits (after
/// the sign, without `_` separators) are decimal digits, the order the
/// range checks use is the order of the numbers the texts spell; `-0` and
/// `0` are equal.
pub proof fn lemma_int_order_by_value(a: Seq<char>, b: Seq<char>)
    requires
        all_digits(split_sign(crate::serialize::without_underscores(a)).1),
        all_digits(split_sign(crate::serialize::without_underscores(b)).1),
    ensures
        int_order_spec(a, b) == order_of(int_text_value(a), int_text_value(b)),
{
    let (an, ad) = split_sign(crate::serialize::without_underscores(a));
    let (bn, bd) = split_sign(crate::serialize::without_underscores(b));
    lemma_strip_zeros_value(ad);
    lemma_strip_zeros_value(bd);
    let na = normalize_digits(ad);
    let nb = normalize_digits(bd);
    assert(crate::ops::digits_value(seq!['0']) == 0) by {
        assert(seq!['0'].drop_last() =~= Seq::<char>::empty());
        assert(seq!['0'].last() == '0');
        assert(crate::ops::digits_value(Seq::<char>::empty()) == 0);
    }
    assert(crate::ops::digits_value(na) == crate::ops::digits_value(ad));
    assert(crate::ops::digits_value(nb) == crate::ops::digits_value(bd));
    assert(all_digits(na));
    assert(all_digits(nb));
    lemma_abs_by_value(na, nb);
    lemma_abs_by_value(nb, na);
    if na != seq!['0'] {
        lemma_value_bounds(na);
        lemma_pow10_mono(0, (na.len() - 1) as nat);
    }
    if nb != seq!['0'] {
        lemma_value_bounds(nb);
        lemma_pow10_mono(0, (nb.len() - 1) as nat);
    }
}

} // verus!
