//! Document operations on parsed KVD node trees: resolve a `Path`, then
//! `get`, `get_mut`, `set`, or `remove` a node.
//!
//! Paths use a compact syntax: dotted map keys (`a.b.c`), quoted keys
//! (`labels."app.kubernetes.io/name"`), and bracketed list indices
//! (`a[0]`, `a.b[2]`, `a[0][1]`). Indices are zero-based; an out-of-range
//! index is an error, never silent truncation or append.
use vstd::prelude::*;
use crate::value::{Mapping, Node, NodeV, map_find, lemma_map_find};
use crate::text::{chars_of, string_of, extend, extend_str, extend_range, bytes_len};
use crate::error::error_display;
use crate::grammar::{index_of_either, lemma_index_of_either_bounds, spec_is_key, all_digits};
use crate::lexer::{quoted_spec, text_limit};

verus! {

/// One step of a `Path`: descend into a map by key, or index a list.
#[derive(Debug, Clone, PartialEq, Eq)]
pub enum Segment {
    /// Descend into a map entry by key.
    Key(String),
    /// Index into a list (zero-based).
    Index(usize),
}

/// Mathematical form of a path segment.
pub enum SegV {
    Key(Seq<char>),
    Index(nat),
}

impl Segment {
    pub open spec fn view(&self) -> SegV {
        match self {
            Segment::Key(k) => SegV::Key(k@),
            Segment::Index(i) => SegV::Index(*i as nat),
        }
    }

    /// Returns the key for a `Segment::Key`, or `None`.
    pub fn as_key(&self) -> (r: Option<&str>)
        ensures
            match self@ {
                SegV::Key(k) => r matches Some(s) && s@ == k,
                SegV::Index(_) => r is None,
            },
    {
        match self {
            Segment::Key(k) => Some(k.as_str()),
            _ => None,
        }
    }

    /// Returns the index for a `Segment::Index`, or `None`.
    pub fn as_index(&self) -> (r: Option<usize>)
        ensures
            match self@ {
                SegV::Index(i) => r == Some(i as usize),
                SegV::Key(_) => r is None,
            },
    {
        match self {
            Segment::Index(i) => Some(*i),
            _ => None,
        }
    }

    /// A copy of this segment.
    pub fn copy(&self) -> (s: Segment)
        ensures
            s@ == self@,
    {
        match self {
            Segment::Key(k) => Segment::Key(k.clone()),
            Segment::Index(i) => Segment::Index(*i),
        }
    }
}

/// The views of a list of segments.
pub open spec fn segs_view(s: Seq<Segment>) -> Seq<SegV> {
    Seq::new(s.len(), |i: int| s[i]@)
}

/// A resolved navigation path through a KVD node tree. An empty path
/// refers to the document root itself.
#[derive(Debug, Clone, PartialEq, Eq)]
pub struct Path {
    segments: Vec<Segment>,
}

impl Path {
    pub closed spec fn view(&self) -> Seq<SegV> {
        segs_view(self.segments@)
    }

    /// The segments of this path, in order.
    pub fn segments(&self) -> (r: &[Segment])
        ensures
            segs_view(r@) == self@,
    {
        self.segments.as_slice()
    }

    /// True when the path is empty (refers to the document root).
    pub fn is_empty(&self) -> (b: bool)
        ensures
            b == (self@.len() == 0),
    {
        self.segments.len() == 0
    }
}

/// The value of a string of decimal digits.
pub open spec fn digits_value(d: Seq<char>) -> nat
    decreases d.len(),
{
    if d.len() == 0 {
        0
    } else {
        digits_value(d.drop_last()) * 10 + (d.last() as u32 - '0' as u32) as nat
    }
}

/// What `usize::from_str` accepts: an optional `+`, then one or more
/// decimal digits whose value fits in `usize`.
pub open spec fn usize_text(num: Seq<char>) -> Option<nat> {
    let d = if num.len() > 0 && num[0] == '+' {
        num.drop_first()
    } else {
        num
    };
    if d.len() > 0 && all_digits(d) && digits_value(d) <= usize::MAX {
        Some(digits_value(d))
    } else {
        None
    }
}

/// `text` followed by `` in path `s` ``.
pub open spec fn in_path(text: Seq<char>, s: Seq<char>) -> Seq<char> {
    text + " in path `"@ + s + "`"@
}

/// The `[index]` suffixes of path `s` from index `i`, appended to `segs`,
/// and the index after them.
pub open spec fn indices_from(s: Seq<char>, i: int, segs: Seq<SegV>) -> Result<(Seq<SegV>, int), Seq<char>>
    decreases s.len() - i,
{
    if 0 <= i < s.len() && s[i] == '[' {
        let close = index_of_either(s.skip(i), ']', ']');
        if i + close >= s.len() {
            Err(in_path("unterminated `[`"@, s))
        } else {
            let num = s.subrange(i + 1, i + close);
            if num.len() == 0 {
                Err(in_path("empty list index"@, s))
            } else {
                match usize_text(num) {
                    None => Err(in_path("invalid list index `"@ + num + "`"@, s)),
                    Some(n) => if close > 0 {
                        indices_from(s, i + close + 1, segs.push(SegV::Index(n)))
                    } else {
                        Ok((segs, i))
                    },
                }
            }
        }
    } else {
        Ok((segs, i))
    }
}

/// One key of path `s` at index `i`: a quoted key (decoded like a document
/// key) or a bare key running to the next `.` or `[`, with the index after
/// it.
pub open spec fn path_key(s: Seq<char>, i: int) -> Result<(Seq<char>, int), Seq<char>> {
    if s[i] == '"' || s[i] == '\'' {
        match quoted_spec(s.skip(i), 0, bytes_len(s.take(i)) + 1) {
            Err(d) => Err("in path `"@ + s + "`: "@ + error_display(d.0, d.1, d.2, d.3)),
            Ok((text, used)) => if text.len() == 0 {
                Err("empty quoted key in path `"@ + s + "`"@)
            } else {
                Ok((text, i + used))
            },
        }
    } else {
        let end = i + index_of_either(s.skip(i), '.', '[');
        let key = s.subrange(i, end);
        if key.len() == 0 {
            Err("empty path segment in `"@ + s + "`"@)
        } else if !spec_is_key(key) {
            Err(in_path("invalid key `"@ + key + "`"@, s))
        } else {
            Ok((key, end))
        }
    }
}

/// The segments of path `s` read from index `i`, appended to `segs`, or
/// the message of the first fault.
pub open spec fn path_from_index(s: Seq<char>, i: int, segs: Seq<SegV>) -> Result<Seq<SegV>, Seq<char>>
    decreases s.len() - i,
{
    if i < 0 || i >= s.len() {
        Ok(segs)
    } else {
        match path_key(s, i) {
            Err(m) => Err(m),
            Ok((key, j)) => match indices_from(s, j, segs.push(SegV::Key(key))) {
                Err(m) => Err(m),
                Ok((segs2, k)) => if k < s.len() {
                    if 0 <= k && s[k] == '.' {
                        if k + 1 >= s.len() {
                            Err(in_path("trailing `.`"@, s))
                        } else if i < k + 1 {
                            path_from_index(s, k + 1, segs2)
                        } else {
                            Ok(segs2)
                        }
                    } else {
                        Err(in_path("unexpected `"@ + seq![s[k]] + "`"@, s))
                    }
                } else {
                    Ok(segs2)
                },
            },
        }
    }
}

/// Reading indices only adds segments.
proof fn lemma_indices_grow(s: Seq<char>, i: int, segs: Seq<SegV>)
    ensures
        indices_from(s, i, segs) matches Ok((r, _)) ==> r.len() >= segs.len(),
    decreases s.len() - i,
{
    if 0 <= i < s.len() && s[i] == '[' {
        let close = index_of_either(s.skip(i), ']', ']');
        if i + close < s.len() {
            let num = s.subrange(i + 1, i + close);
            if num.len() > 0 {
                if let Some(n) = usize_text(num) {
                    if close > 0 {
                        lemma_indices_grow(s, i + close + 1, segs.push(SegV::Index(n)));
                    }
                }
            }
        }
    }
}

/// Reading a path from a position inside it adds at least one segment.
proof fn lemma_path_grows(s: Seq<char>, i: int, segs: Seq<SegV>)
    ensures
        path_from_index(s, i, segs) matches Ok(r) ==> r.len() >= segs.len() && (0 <= i < s.len() ==> r.len()
            > segs.len()),
    decreases s.len() - i,
{
    if 0 <= i < s.len() {
        if let Ok((key, j)) = path_key(s, i) {
            lemma_indices_grow(s, j, segs.push(SegV::Key(key)));
            if let Ok((segs2, k)) = indices_from(s, j, segs.push(SegV::Key(key))) {
                if k < s.len() && 0 <= k && s[k] == '.' && k + 1 < s.len() && i < k + 1 {
                    lemma_path_grows(s, k + 1, segs2);
                }
            }
        }
    }
}

/// A path that parses names at least one segment: only the empty path,
/// which is refused, would name the root.
pub proof fn lemma_parsed_path_not_empty(s: Seq<char>)
    ensures
        parse_spec(s) matches Ok(segs) ==> segs.len() > 0,
{
    lemma_path_grows(s, 0, Seq::empty());
}

/// The segments a path string denotes, or the message of the first fault.
pub open spec fn parse_spec(s: Seq<char>) -> Result<Seq<SegV>, Seq<char>> {
    if s.len() == 0 {
        Err("empty path"@)
    } else {
        path_from_index(s, 0, Seq::empty())
    }
}

/// The number `usize::from_str` reads from `v[lo..hi]`, if any.
fn parse_usize(v: &Vec<char>, lo: usize, hi: usize) -> (r: Option<usize>)
    requires
        lo <= hi <= v@.len(),
    ensures
        match usize_text(v@.subrange(lo as int, hi as int)) {
            Some(n) => r == Some(n as usize),
            None => r is None,
        },
{
    let ghost num = v@.subrange(lo as int, hi as int);
    let mut k = lo;
    if k < hi && v[k] == '+' {
        k += 1;
    }
    let ghost d = v@.subrange(k as int, hi as int);
    assert(d =~= (if num.len() > 0 && num[0] == '+' { num.drop_first() } else { num }));
    if k == hi {
        return None;
    }
    let mut value: usize = 0;
    let mut j = k;
    while j < hi
        invariant
            k <= j <= hi <= v@.len(),
            d == v@.subrange(k as int, hi as int),
            num == v@.subrange(lo as int, hi as int),
            d == (if num.len() > 0 && num[0] == '+' { num.drop_first() } else { num }),
            all_digits(v@.subrange(k as int, j as int)),
            value == digits_value(v@.subrange(k as int, j as int)),
        decreases hi - j,
    {
        let c = v[j];
        assert(v@.subrange(k as int, j + 1).drop_last() =~= v@.subrange(k as int, j as int));
        if !(c >= '0' && c <= '9') {
            assert(d[j - k] == c);
            assert(!crate::grammar::is_digit(d[j - k]));
            assert(!all_digits(d));
            return None;
        }
        let digit = (c as u32 - '0' as u32) as usize;
        assert(all_digits(v@.subrange(k as int, j + 1))) by {
            assert forall|t: int| 0 <= t < j + 1 - k implies crate::grammar::is_digit(
                #[trigger] v@.subrange(k as int, j + 1)[t],
            ) by {
                if t < j - k {
                    assert(v@.subrange(k as int, j + 1)[t] == v@.subrange(k as int, j as int)[t]);
                }
            }
        }
        if value > (usize::MAX - digit) / 10 {
            proof {
                assert(value * 10 + digit > usize::MAX) by (nonlinear_arith)
                    requires
                        value > (usize::MAX - digit) / 10,
                        digit <= 9,
                ;
                if all_digits(d) {
                    lemma_digits_value_prefix(d, j + 1 - k);
                    assert(d.take(j + 1 - k) =~= v@.subrange(k as int, j + 1));
                }
            }
            return None;
        }
        assert(value * 10 + digit <= usize::MAX) by (nonlinear_arith)
            requires
                value <= (usize::MAX - digit) / 10,
                digit <= 9,
        ;
        value = value * 10 + digit;
        j += 1;
    }
    Some(value)
}

impl Path {
    /// Parses a path string into segments. Syntax: `key ("." key)*` with
    /// optional `[index]` suffixes on any key (`a.b[0].c`); keys follow the
    /// KVD key grammar or are quoted; indices are non-negative integers.
    /// Any malformed input is an `OpError::BadPath`.
    pub fn parse(s: &str) -> (r: Result<Path, OpError>)
        requires
            s@.len() <= text_limit(),
        ensures
            match parse_spec(s@) {
                Ok(segs) => r matches Ok(p) && p@ == segs,
                Err(m) => r matches Err(OpError::BadPath(x)) && x@ == m,
            },
    {
        let v = chars_of(s);
        if v.len() == 0 {
            return Err(OpError::BadPath(String::from_str("empty path")));
        }
        let mut segments: Vec<Segment> = Vec::new();
        let mut i: usize = 0;
        assert(segs_view(segments@) =~= Seq::<SegV>::empty());
        while i < v.len()
            invariant
                i <= v@.len() <= text_limit(),
                v@ == s@,
                v@.len() > 0,
                path_from_index(v@, i as int, segs_view(segments@)) == parse_spec(s@),
            decreases v.len() - i,
        {
            let ghost before = segs_view(segments@);
            let (key, j) = match path_key_at(&v, i) {
                Ok(x) => x,
                Err(m) => return Err(OpError::BadPath(string_of(&m))),
            };
            segments.push(Segment::Key(string_of(&key)));
            assert(segs_view(segments@) =~= before.push(SegV::Key(key@)));
            let k = match indices_at(&v, j, &mut segments) {
                Ok(k) => k,
                Err(m) => return Err(OpError::BadPath(string_of(&m))),
            };
            if k < v.len() {
                if v[k] == '.' {
                    if k + 1 >= v.len() {
                        let m = path_message("trailing `.`", &v);
                        return Err(OpError::BadPath(string_of(&m)));
                    }
                    i = k + 1;
                } else {
                    let mut t: Vec<char> = Vec::new();
                    extend_str(&mut t, "unexpected `");
                    t.push(v[k]);
                    extend_str(&mut t, "`");
                    let m = path_message_chars(&t, &v);
                    assert(t@ =~= "unexpected `"@ + seq![v@[k as int]] + "`"@);
                    return Err(OpError::BadPath(string_of(&m)));
                }
            } else {
                return Ok(Path { segments });
            }
        }
        Ok(Path { segments })
    }
}

impl core::str::FromStr for Path {
    type Err = OpError;

    /// Same as `Path::parse`; a path longer than the parser's length bound
    /// is refused as a bad path.
    fn from_str(s: &str) -> (r: Result<Path, OpError>)
        ensures
            s@.len() > text_limit() ==> (r matches Err(OpError::BadPath(x)) && x@
                == "path too long"@),
            s@.len() <= text_limit() ==> match parse_spec(s@) {
                Ok(segs) => r matches Ok(p) && p@ == segs,
                Err(m) => r matches Err(OpError::BadPath(x)) && x@ == m,
            },
    {
        proof {
            reveal_strlit("path too long");
        }
        if s.unicode_len() > usize::MAX / 8 {
            let m = chars_of("path too long");
            return Err(OpError::BadPath(string_of(&m)));
        }
        Path::parse(s)
    }
}

/// `text` followed by `` in path `s` ``.
fn path_message(text: &str, s: &Vec<char>) -> (m: Vec<char>)
    ensures
        m@ == in_path(text@, s@),
{
    let t = chars_of(text);
    path_message_chars(&t, s)
}

/// `text` followed by `` in path `s` ``.
fn path_message_chars(text: &Vec<char>, s: &Vec<char>) -> (m: Vec<char>)
    ensures
        m@ == in_path(text@, s@),
{
    let mut m: Vec<char> = Vec::new();
    extend(&mut m, text);
    extend_str(&mut m, " in path `");
    extend(&mut m, s);
    extend_str(&mut m, "`");
    m
}

/// Reads the key of path `s` at index `i`.
fn path_key_at(s: &Vec<char>, i: usize) -> (r: Result<(Vec<char>, usize), Vec<char>>)
    requires
        i < s@.len() <= text_limit(),
    ensures
        match path_key(s@, i as int) {
            Ok((key, j)) => r matches Ok((k, n)) && k@ == key && n == j && i < j <= s@.len(),
            Err(m) => r matches Err(x) && x@ == m,
        },
{
    if s[i] == '"' || s[i] == '\'' {
        proof {
            crate::text::lemma_bytes_len_bound(s@.take(i as int));
            crate::text::lemma_bytes_len_bound(s@.subrange(i as int, s@.len() as int));
            assert(s@.subrange(0, i as int) =~= s@.take(i as int));
            assert(s@.subrange(i as int, s@.len() as int) =~= s@.skip(i as int));
        }
        let col = crate::text::bytes_len_range(s, 0, i) + 1;
        match crate::lexer::scan_quoted(s, i, s.len(), 0, col) {
            Err(e) => {
                let mut m: Vec<char> = Vec::new();
                extend_str(&mut m, "in path `");
                extend(&mut m, s);
                extend_str(&mut m, "`: ");
                let d = e.to_string();
                extend_str(&mut m, d.as_str());
                Err(m)
            },
            Ok((text, used, _b)) => {
                if text.len() == 0 {
                    let mut m: Vec<char> = Vec::new();
                    extend_str(&mut m, "empty quoted key in path `");
                    extend(&mut m, s);
                    extend_str(&mut m, "`");
                    return Err(m);
                }
                Ok((text, i + used))
            },
        }
    } else {
        let end = crate::grammar::find_either(s, i, s.len(), '.', '[');
        assert(s@.subrange(i as int, s@.len() as int) =~= s@.skip(i as int));
        if end == i {
            let mut m: Vec<char> = Vec::new();
            extend_str(&mut m, "empty path segment in `");
            extend(&mut m, s);
            extend_str(&mut m, "`");
            return Err(m);
        }
        if !crate::grammar::is_key_range(s, i, end) {
            let mut t: Vec<char> = Vec::new();
            extend_str(&mut t, "invalid key `");
            extend_range(&mut t, s, i, end);
            extend_str(&mut t, "`");
            return Err(path_message_chars(&t, s));
        }
        let mut key: Vec<char> = Vec::new();
        extend_range(&mut key, s, i, end);
        Ok((key, end))
    }
}

/// Reads the `[index]` suffixes of path `s` from index `i` into `segs`.
fn indices_at(s: &Vec<char>, start: usize, segs: &mut Vec<Segment>) -> (r: Result<usize, Vec<char>>)
    requires
        start <= s@.len(),
    ensures
        match indices_from(s@, start as int, segs_view(old(segs)@)) {
            Ok((segs2, k)) => r matches Ok(n) && n == k && segs_view(final(segs)@) == segs2 && start <= k
                <= s@.len(),
            Err(m) => r matches Err(x) && x@ == m,
        },
{
    let i0 = start;
    let mut i = start;
    loop
        invariant
            i0 == start,
            i0 <= i <= s@.len(),
            indices_from(s@, i as int, segs_view(segs@)) == indices_from(
                s@,
                i0 as int,
                segs_view(old(segs)@),
            ),
        decreases s.len() - i,
    {
        if !(i < s.len() && s[i] == '[') {
            return Ok(i);
        }
        let close = crate::grammar::find_either(s, i, s.len(), ']', ']');
        proof {
            assert(s@.subrange(i as int, s@.len() as int) =~= s@.skip(i as int));
            lemma_index_of_either_bounds(s@.skip(i as int), ']', ']');
            assert(s@.skip(i as int)[0] == '[');
        }
        if close >= s.len() {
            return Err(path_message("unterminated `[`", s));
        }
        if close == i + 1 {
            return Err(path_message("empty list index", s));
        }
        match parse_usize(s, i + 1, close) {
            None => {
                let mut t: Vec<char> = Vec::new();
                extend_str(&mut t, "invalid list index `");
                extend_range(&mut t, s, i + 1, close);
                extend_str(&mut t, "`");
                return Err(path_message_chars(&t, s));
            },
            Some(n) => {
                let ghost before = segs_view(segs@);
                segs.push(Segment::Index(n));
                assert(segs_view(segs@) =~= before.push(SegV::Index(n as nat)));
                i = close + 1;
            },
        }
    }
}

/// A prefix of a digit string has no greater value.
pub proof fn lemma_digits_value_prefix(d: Seq<char>, k: int)
    requires
        all_digits(d),
        0 <= k <= d.len(),
    ensures
        digits_value(d.take(k)) <= digits_value(d),
    decreases d.len(),
{
    if k < d.len() {
        assert(d.drop_last().take(k) =~= d.take(k));
        assert(all_digits(d.drop_last())) by {
            assert forall|j: int| 0 <= j < d.drop_last().len() implies crate::grammar::is_digit(
                #[trigger] d.drop_last()[j],
            ) by {
                assert(d.drop_last()[j] == d[j]);
            }
        }
        lemma_digits_value_prefix(d.drop_last(), k);
        assert(crate::grammar::is_digit(d[d.len() - 1]));
    } else {
        assert(d.take(k) =~= d);
    }
}

impl Default for Path {
    fn default() -> (p: Path)
        ensures
            p@ == Seq::<SegV>::empty(),
    {
        let p = Path { segments: Vec::new() };
        assert(p@ =~= Seq::<SegV>::empty());
        p
    }
}

/// Errors raised by the document operations.
#[derive(Debug, Clone, PartialEq, Eq)]
#[non_exhaustive]
pub enum OpError {
    /// The path string could not be parsed.
    BadPath(String),
    /// A map key named in the path does not exist.
    MissingKey(String),
    /// A list index is out of range for its list.
    IndexOutOfBounds(usize),
    /// A node expected to be a map was some other shape.
    NotAMap,
    /// A node expected to be a list was some other shape.
    NotAList,
    /// A value had an unexpected shape (reserved for future use).
    TypeMismatch,
}

/// The display form of an operation error.
pub open spec fn op_error_text(e: OpError) -> Seq<char> {
    match e {
        OpError::BadPath(m) => "bad path: "@ + m@,
        OpError::MissingKey(k) => "missing key `"@ + k@ + "`"@,
        OpError::IndexOutOfBounds(i) => "index out of bounds: "@ + crate::text::decimal(i as nat),
        OpError::NotAMap => "expected a map"@,
        OpError::NotAList => "expected a list"@,
        OpError::TypeMismatch => "type mismatch"@,
    }
}

impl OpError {
    /// The display form of this error.
    pub fn to_string(&self) -> (s: String)
        ensures
            s@ == op_error_text(*self),
    {
        let mut v: Vec<char> = Vec::new();
        match self {
            OpError::BadPath(m) => {
                extend_str(&mut v, "bad path: ");
                extend_str(&mut v, m.as_str());
            },
            OpError::MissingKey(k) => {
                extend_str(&mut v, "missing key `");
                extend_str(&mut v, k.as_str());
                extend_str(&mut v, "`");
            },
            OpError::IndexOutOfBounds(i) => {
                extend_str(&mut v, "index out of bounds: ");
                let d = crate::text::usize_to_chars(*i);
                extend(&mut v, &d);
            },
            OpError::NotAMap => extend_str(&mut v, "expected a map"),
            OpError::NotAList => extend_str(&mut v, "expected a list"),
            OpError::TypeMismatch => extend_str(&mut v, "type mismatch"),
        }
        string_of(&v)
    }
}

/// Why navigation along a path failed.
pub enum OpFail {
    MissingKey(Seq<char>),
    IndexOutOfBounds(nat),
    NotAMap,
    NotAList,
}

/// Whether an exec error is the given failure.
pub open spec fn fail_matches(e: OpError, f: OpFail) -> bool {
    match f {
        OpFail::MissingKey(k) => e matches OpError::MissingKey(s) && s@ == k,
        OpFail::IndexOutOfBounds(i) => e == OpError::IndexOutOfBounds(i as usize),
        OpFail::NotAMap => e is NotAMap,
        OpFail::NotAList => e is NotAList,
    }
}

/// The node at `p` below `n`, if every segment resolves.
pub open spec fn get_at(n: NodeV, p: Seq<SegV>) -> Option<NodeV>
    decreases p.len(),
{
    if p.len() == 0 {
        Some(n)
    } else {
        match p[0] {
            SegV::Key(k) => match n {
                NodeV::Mapping(m) => match map_find(m, k) {
                    Some(i) => get_at(m[i].1, p.drop_first()),
                    None => None,
                },
                _ => None,
            },
            SegV::Index(i) => match n {
                NodeV::List(l) => if i < l.len() {
                    get_at(l[i as int], p.drop_first())
                } else {
                    None
                },
                _ => None,
            },
        }
    }
}

/// The document after setting `v` at `p`, and the failure if any. Missing
/// map keys on the way are created as empty maps (also when a later
/// segment then fails); list indices must exist.
pub open spec fn set_at(n: NodeV, p: Seq<SegV>, v: NodeV) -> (NodeV, Option<OpFail>)
    decreases p.len(),
{
    if p.len() == 0 {
        (v, None)
    } else {
        match p[0] {
            SegV::Key(k) => match n {
                NodeV::Mapping(m) => if p.len() == 1 {
                    match map_find(m, k) {
                        Some(i) => (NodeV::Mapping(m.update(i, (m[i].0, v))), None),
                        None => (NodeV::Mapping(m.push((k, v))), None),
                    }
                } else {
                    let m2 = match map_find(m, k) {
                        Some(i) => m,
                        None => m.push((k, NodeV::Mapping(Seq::empty()))),
                    };
                    let i = match map_find(m, k) {
                        Some(i) => i,
                        None => m.len() as int,
                    };
                    let (c2, r) = set_at(m2[i].1, p.drop_first(), v);
                    (NodeV::Mapping(m2.update(i, (m2[i].0, c2))), r)
                },
                _ => (n, Some(OpFail::NotAMap)),
            },
            SegV::Index(i) => match n {
                NodeV::List(l) => if i >= l.len() {
                    (n, Some(OpFail::IndexOutOfBounds(i)))
                } else if p.len() == 1 {
                    (NodeV::List(l.update(i as int, v)), None)
                } else {
                    let (c2, r) = set_at(l[i as int], p.drop_first(), v);
                    (NodeV::List(l.update(i as int, c2)), r)
                },
                _ => (n, Some(OpFail::NotAList)),
            },
        }
    }
}

/// The document after removing the node at `p`, and the removed node or
/// the failure. With `prune`, a map entry whose map became empty through
/// the removal is removed as well, up the chain; list items are never
/// pruned.
pub open spec fn remove_at(n: NodeV, p: Seq<SegV>, prune: bool) -> (NodeV, Result<NodeV, OpFail>)
    decreases p.len(),
{
    if p.len() == 0 {
        (n, Ok(n))
    } else {
        match p[0] {
            SegV::Key(k) => match n {
                NodeV::Mapping(m) => match map_find(m, k) {
                    None => (n, Err(OpFail::MissingKey(k))),
                    Some(i) => if p.len() == 1 {
                        (NodeV::Mapping(m.remove(i)), Ok(m[i].1))
                    } else {
                        let (c2, r) = remove_at(m[i].1, p.drop_first(), prune);
                        let m2 = m.update(i, (m[i].0, c2));
                        match r {
                            Err(e) => (NodeV::Mapping(m2), Err(e)),
                            Ok(x) => if prune && c2 is Mapping && c2->Mapping_0.len() == 0 {
                                (NodeV::Mapping(m2.remove(i)), Ok(x))
                            } else {
                                (NodeV::Mapping(m2), Ok(x))
                            },
                        }
                    },
                },
                _ => (n, Err(OpFail::NotAMap)),
            },
            SegV::Index(i) => match n {
                NodeV::List(l) => if i >= l.len() {
                    (n, Err(OpFail::IndexOutOfBounds(i)))
                } else if p.len() == 1 {
                    (NodeV::List(l.remove(i as int)), Ok(l[i as int]))
                } else {
                    let (c2, r) = remove_at(l[i as int], p.drop_first(), prune);
                    (NodeV::List(l.update(i as int, c2)), r)
                },
                _ => (n, Err(OpFail::NotAList)),
            },
        }
    }
}

/// Resolves `path` to an immutable node, or `None` if any segment is
/// missing or mistyped.
pub fn get<'a>(doc: &'a Node, path: &Path) -> (r: Option<&'a Node>)
    ensures
        match get_at(doc@, path@) {
            Some(t) => r matches Some(n) && n@ == t,
            None => r is None,
        },
{
    assert(segs_view(path.segments@).skip(0) =~= path@);
    get_from(doc, &path.segments, 0)
}

fn get_from<'a>(node: &'a Node, segs: &Vec<Segment>, idx: usize) -> (r: Option<&'a Node>)
    requires
        idx <= segs@.len(),
    ensures
        match get_at(node@, segs_view(segs@).skip(idx as int)) {
            Some(t) => r matches Some(n) && n@ == t,
            None => r is None,
        },
    decreases segs@.len() - idx,
{
    let ghost p = segs_view(segs@).skip(idx as int);
    if idx == segs.len() {
        return Some(node);
    }
    assert(p.drop_first() =~= segs_view(segs@).skip(idx + 1));
    assert(p[0] == segs@[idx as int]@);
    match &segs[idx] {
        Segment::Key(k) => match node {
            Node::Mapping(m) => {
                let kc = chars_of(k.as_str());
                match m.find(&kc) {
                    Some(i) => get_from(m.node_at(i), segs, idx + 1),
                    None => None,
                }
            },
            _ => None,
        },
        Segment::Index(i) => match node {
            Node::List(l) => {
                if *i < l.len() {
                    get_from(&l[*i], segs, idx + 1)
                } else {
                    None
                }
            },
            _ => None,
        },
    }
}

/// Resolves `path` to a mutable node, or `None` if any segment is missing
/// or mistyped. Writing through the reference replaces that node.
pub fn get_mut<'a>(doc: &'a mut Node, path: &Path) -> (r: Option<&'a mut Node>)
    ensures
        match get_at(old(doc)@, path@) {
            Some(t) => r matches Some(n) && (*n)@ == t && (*final(doc))@ == set_at(
                old(doc)@,
                path@,
                (*final(n))@,
            ).0,
            None => r is None && (*final(doc))@ == old(doc)@,
        },
{
    assert(segs_view(path.segments@).skip(0) =~= path@);
    get_mut_from(doc, &path.segments, 0)
}

fn get_mut_from<'a>(node: &'a mut Node, segs: &Vec<Segment>, idx: usize) -> (r: Option<&'a mut Node>)
    requires
        idx <= segs@.len(),
    ensures
        match get_at(old(node)@, segs_view(segs@).skip(idx as int)) {
            Some(t) => r matches Some(n) && (*n)@ == t && (*final(node))@ == set_at(
                old(node)@,
                segs_view(segs@).skip(idx as int),
                (*final(n))@,
            ).0,
            None => r is None && (*final(node))@ == old(node)@,
        },
    decreases segs@.len() - idx,
{
    let ghost p = segs_view(segs@).skip(idx as int);
    if idx == segs.len() {
        return Some(node);
    }
    assert(p.drop_first() =~= segs_view(segs@).skip(idx + 1));
    assert(p[0] == segs@[idx as int]@);
    match &segs[idx] {
        Segment::Key(k) => {
            let kc = chars_of(k.as_str());
            match node {
                Node::Mapping(m) => match m.find(&kc) {
                    Some(i) => {
                        proof {
                            lemma_map_find(m@, kc@);
                            assert(m@.update(i as int, (m@[i as int].0, m@[i as int].1)) =~= m@);
                        }
                        let child = m.node_mut_at(i);
                        get_mut_from(child, segs, idx + 1)
                    },
                    None => None,
                },
                _ => None,
            }
        },
        Segment::Index(i) => {
            let i = *i;
            if node.as_list().is_none() {
                return None;
            }
            if i >= node.as_list().unwrap().len() {
                return None;
            }
            proof {
                assert(node@->List_0.update(i as int, node@->List_0[i as int]) =~= node@->List_0);
            }
            let child = node.list_item_mut(i);
            get_mut_from(child, segs, idx + 1)
        },
    }
}

/// Setting along a path whose target exists succeeds: `set_at` reports no
/// failure when `get_at` resolves.
pub proof fn lemma_get_set_shape(n: NodeV, p: Seq<SegV>, v: NodeV)
    ensures
        get_at(n, p) is Some ==> set_at(n, p, v).1 is None,
    decreases p.len(),
{
    if p.len() > 0 {
        match p[0] {
            SegV::Key(k) => match n {
                NodeV::Mapping(m) => match map_find(m, k) {
                    Some(i) => {
                        lemma_map_find(m, k);
                        lemma_get_set_shape(m[i].1, p.drop_first(), v);
                    },
                    None => {},
                },
                _ => {},
            },
            SegV::Index(i) => match n {
                NodeV::List(l) => if i < l.len() {
                    lemma_get_set_shape(l[i as int], p.drop_first(), v);
                },
                _ => {},
            },
        }
    }
}

} // verus!

verus! {

/// Whether an exec outcome of `set` matches the specified failure.
pub open spec fn set_result_matches(r: Result<(), OpError>, f: Option<OpFail>) -> bool {
    match f {
        None => r is Ok,
        Some(f) => r matches Err(e) && fail_matches(e, f),
    }
}

/// Whether an exec outcome of `remove` matches the specified outcome.
pub open spec fn remove_result_matches(r: Result<Option<Node>, OpError>, s: Result<NodeV, OpFail>) -> bool {
    match s {
        Ok(x) => r matches Ok(Some(n)) && n@ == x,
        Err(f) => r matches Err(e) && fail_matches(e, f),
    }
}

/// Sets `value` at `path`, creating intermediate maps as needed (like the
/// parser's dotted-key expansion). List indices must already exist; an
/// out-of-range index is `IndexOutOfBounds`. Replaces any node already at
/// the target. The empty path (the root) is `BadPath`.
pub fn set(doc: &mut Node, path: &Path, value: Node) -> (r: Result<(), OpError>)
    ensures
        path@.len() == 0 ==> (r matches Err(OpError::BadPath(m)) && m@ == "cannot set the document root"@
            && (*final(doc))@ == old(doc)@),
        path@.len() > 0 ==> (*final(doc))@ == set_at(old(doc)@, path@, value@).0 && set_result_matches(
            r,
            set_at(old(doc)@, path@, value@).1,
        ),
{
    if path.segments.len() == 0 {
        return Err(OpError::BadPath(String::from_str("cannot set the document root")));
    }
    assert(segs_view(path.segments@).skip(0) =~= path@);
    do_set(doc, &path.segments, 0, value)
}

fn do_set(node: &mut Node, segs: &Vec<Segment>, idx: usize, value: Node) -> (r: Result<(), OpError>)
    requires
        idx < segs@.len(),
    ensures
        (*final(node))@ == set_at(old(node)@, segs_view(segs@).skip(idx as int), value@).0,
        set_result_matches(r, set_at(old(node)@, segs_view(segs@).skip(idx as int), value@).1),
    decreases segs@.len() - idx,
{
    let ghost p = segs_view(segs@).skip(idx as int);
    assert(p.drop_first() =~= segs_view(segs@).skip(idx + 1));
    assert(p[0] == segs@[idx as int]@);
    let last = segs.len() - idx == 1;
    match &segs[idx] {
        Segment::Key(k) => {
            let kc = chars_of(k.as_str());
            match node {
                Node::Mapping(map) => {
                    proof {
                        lemma_map_find(map@, kc@);
                    }
                    if last {
                        match map.find(&kc) {
                            Some(i) => {
                                map.set_node_at(i, value);
                            },
                            None => {
                                map.insert(k.clone(), value);
                            },
                        }
                        return Ok(());
                    }
                    let i = match map.find(&kc) {
                        Some(i) => i,
                        None => {
                            let n = map.len();
                            map.insert(k.clone(), Node::map(Mapping::new()));
                            n
                        },
                    };
                    let child = map.node_mut_at(i);
                    do_set(child, segs, idx + 1, value)
                },
                _ => Err(OpError::NotAMap),
            }
        },
        Segment::Index(i) => {
            let i = *i;
            if node.as_list().is_none() {
                return Err(OpError::NotAList);
            }
            if i >= node.as_list().unwrap().len() {
                return Err(OpError::IndexOutOfBounds(i));
            }
            if last {
                node.list_set(i, value);
                return Ok(());
            }
            let child = node.list_item_mut(i);
            do_set(child, segs, idx + 1, value)
        },
    }
}

/// Removes the node at `path`, returning it. Ancestors that become empty
/// are left as empty maps. Errors if the path does not resolve
/// (`MissingKey` / `IndexOutOfBounds`) or a node is the wrong shape
/// (`NotAMap` / `NotAList`); the empty path is `BadPath`.
pub fn remove(doc: &mut Node, path: &Path) -> (r: Result<Option<Node>, OpError>)
    ensures
        path@.len() == 0 ==> (r matches Err(OpError::BadPath(m)) && m@
            == "cannot remove the document root"@ && (*final(doc))@ == old(doc)@),
        path@.len() > 0 ==> (*final(doc))@ == remove_at(old(doc)@, path@, false).0
            && remove_result_matches(r, remove_at(old(doc)@, path@, false).1),
{
    if path.segments.len() == 0 {
        return Err(OpError::BadPath(String::from_str("cannot remove the document root")));
    }
    assert(segs_view(path.segments@).skip(0) =~= path@);
    do_remove(doc, &path.segments, 0, false)
}

/// Like `remove`, but prunes ancestor maps that become empty through the
/// removal, recursively up the chain. List items are never pruned.
pub fn remove_recursive(doc: &mut Node, path: &Path) -> (r: Result<Option<Node>, OpError>)
    ensures
        path@.len() == 0 ==> (r matches Err(OpError::BadPath(m)) && m@
            == "cannot remove the document root"@ && (*final(doc))@ == old(doc)@),
        path@.len() > 0 ==> (*final(doc))@ == remove_at(old(doc)@, path@, true).0
            && remove_result_matches(r, remove_at(old(doc)@, path@, true).1),
{
    if path.segments.len() == 0 {
        return Err(OpError::BadPath(String::from_str("cannot remove the document root")));
    }
    assert(segs_view(path.segments@).skip(0) =~= path@);
    do_remove(doc, &path.segments, 0, true)
}

fn do_remove(node: &mut Node, segs: &Vec<Segment>, idx: usize, prune: bool) -> (r: Result<Option<Node>, OpError>)
    requires
        idx < segs@.len(),
    ensures
        (*final(node))@ == remove_at(old(node)@, segs_view(segs@).skip(idx as int), prune).0,
        remove_result_matches(r, remove_at(old(node)@, segs_view(segs@).skip(idx as int), prune).1),
    decreases segs@.len() - idx,
{
    let ghost p = segs_view(segs@).skip(idx as int);
    assert(p.drop_first() =~= segs_view(segs@).skip(idx + 1));
    assert(p[0] == segs@[idx as int]@);
    let last = segs.len() - idx == 1;
    match &segs[idx] {
        Segment::Key(k) => {
            let kc = chars_of(k.as_str());
            match node {
                Node::Mapping(map) => {
                    proof {
                        lemma_map_find(map@, kc@);
                    }
                    let i = match map.find(&kc) {
                        Some(i) => i,
                        None => {
                            return Err(OpError::MissingKey(k.clone()));
                        },
                    };
                    if last {
                        let (_, n) = map.remove_at(i);
                        return Ok(Some(n));
                    }
                    let removed = {
                        let child = map.node_mut_at(i);
                        do_remove(child, segs, idx + 1, prune)
                    };
                    let removed = match removed {
                        Ok(x) => x,
                        Err(e) => {
                            return Err(e);
                        },
                    };
                    if prune {
                        let empty = match map.node_at(i) {
                            Node::Mapping(inner) => inner.is_empty(),
                            _ => false,
                        };
                        if empty {
                            map.remove_at(i);
                        }
                    }
                    Ok(removed)
                },
                _ => Err(OpError::NotAMap),
            }
        },
        Segment::Index(i) => {
            let i = *i;
            if node.as_list().is_none() {
                return Err(OpError::NotAList);
            }
            if i >= node.as_list().unwrap().len() {
                return Err(OpError::IndexOutOfBounds(i));
            }
            if last {
                let n = node.list_remove(i);
                return Ok(Some(n));
            }
            let child = node.list_item_mut(i);
            do_remove(child, segs, idx + 1, prune)
        },
    }
}

} // verus!

verus! {

/// A read gives back what a write wrote: after a successful `set` at a
/// non-empty path, `get` at that path yields the value set.
pub proof fn lemma_get_after_set(n: NodeV, p: Seq<SegV>, v: NodeV)
    requires
        p.len() > 0,
        set_at(n, p, v).1 is None,
    ensures
        get_at(set_at(n, p, v).0, p) == Some(v),
    decreases p.len(),
{
    match p[0] {
        SegV::Key(k) => match n {
            NodeV::Mapping(m) => {
                lemma_map_find(m, k);
                let m2 = match map_find(m, k) {
                    Some(i) => m,
                    None => m.push((k, NodeV::Mapping(Seq::empty()))),
                };
                let i = match map_find(m, k) {
                    Some(i) => i,
                    None => m.len() as int,
                };
                if p.len() == 1 {
                    match map_find(m, k) {
                        Some(j) => {
                            crate::value::lemma_map_find_unique(m.update(j, (m[j].0, v)), k, j);
                        },
                        None => {
                            crate::value::lemma_map_find_unique(m.push((k, v)), k, m.len() as int);
                        },
                    }
                } else {
                    let (c2, r) = set_at(m2[i].1, p.drop_first(), v);
                    if p.drop_first().len() > 0 {
                        lemma_get_after_set(m2[i].1, p.drop_first(), v);
                    }
                    crate::value::lemma_map_find_unique(m2.update(i, (m2[i].0, c2)), k, i);
                }
            },
            _ => {},
        },
        SegV::Index(i) => match n {
            NodeV::List(l) => {
                if i < l.len() && p.len() > 1 {
                    lemma_get_after_set(l[i as int], p.drop_first(), v);
                }
            },
            _ => {},
        },
    }
}

/// `remove` hands back the node that `get` resolves at the same path.
pub proof fn lemma_remove_returns_target(n: NodeV, p: Seq<SegV>, prune: bool)
    requires
        p.len() > 0,
        remove_at(n, p, prune).1 is Ok,
    ensures
        get_at(n, p) == Some(remove_at(n, p, prune).1->Ok_0),
    decreases p.len(),
{
    match p[0] {
        SegV::Key(k) => match n {
            NodeV::Mapping(m) => {
                lemma_map_find(m, k);
                match map_find(m, k) {
                    Some(i) => {
                        if p.len() > 1 {
                            lemma_remove_returns_target(m[i].1, p.drop_first(), prune);
                        } else {
                            assert(get_at(m[i].1, p.drop_first()) == Some(m[i].1));
                        }
                    },
                    None => {},
                }
            },
            _ => {},
        },
        SegV::Index(i) => match n {
            NodeV::List(l) => {
                if i < l.len() && p.len() > 1 {
                    lemma_remove_returns_target(l[i as int], p.drop_first(), prune);
                } else if i < l.len() {
                    assert(get_at(l[i as int], p.drop_first()) == Some(l[i as int]));
                }
            },
            _ => {},
        },
    }
}

/// A failed `remove` leaves the document unchanged.
pub proof fn lemma_remove_failure_unchanged(n: NodeV, p: Seq<SegV>, prune: bool)
    requires
        p.len() > 0,
        remove_at(n, p, prune).1 is Err,
    ensures
        remove_at(n, p, prune).0 == n,
    decreases p.len(),
{
    match p[0] {
        SegV::Key(k) => match n {
            NodeV::Mapping(m) => {
                lemma_map_find(m, k);
                match map_find(m, k) {
                    Some(i) => {
                        if p.len() > 1 {
                            lemma_remove_failure_unchanged(m[i].1, p.drop_first(), prune);
                            assert(m.update(i, (m[i].0, m[i].1)) =~= m);
                        }
                    },
                    None => {},
                }
            },
            _ => {},
        },
        SegV::Index(i) => match n {
            NodeV::List(l) => {
                if i < l.len() && p.len() > 1 {
                    lemma_remove_failure_unchanged(l[i as int], p.drop_first(), prune);
                    assert(l.update(i as int, l[i as int]) =~= l);
                }
            },
            _ => {},
        },
    }
}

/// Setting along a path that already resolves never fails, and `get`
/// afterwards yields the value set.
pub proof fn lemma_set_existing(n: NodeV, p: Seq<SegV>, v: NodeV)
    requires
        p.len() > 0,
        get_at(n, p) is Some,
    ensures
        set_at(n, p, v).1 is None,
        get_at(set_at(n, p, v).0, p) == Some(v),
{
    lemma_get_set_shape(n, p, v);
    lemma_get_after_set(n, p, v);
}

/// A decimal spelling is digits, none of them a sign, and their value is
/// the number spelled.
proof fn lemma_decimal_digits(n: nat)
    ensures
        crate::text::decimal(n).len() > 0,
        all_digits(crate::text::decimal(n)),
        digits_value(crate::text::decimal(n)) == n,
    decreases n,
{
    let d = crate::text::decimal(n);
    let c = crate::text::digit_char(n % 10);
    assert(c as u32 == ('0' as u32) + n % 10);
    if n < 10 {
        assert(d.drop_last() =~= Seq::<char>::empty());
        assert(d.last() == c);
        assert(digits_value(d) == digits_value(d.drop_last()) * 10 + (d.last() as u32 - '0' as u32) as nat);
    } else {
        lemma_decimal_digits(n / 10);
        assert(d.drop_last() =~= crate::text::decimal(n / 10));
        assert(d.last() == c);
        assert((n / 10) * 10 + n % 10 == n) by (nonlinear_arith);
        assert(digits_value(d) == digits_value(d.drop_last()) * 10 + (d.last() as u32 - '0' as u32) as nat);
        assert forall|i: int| 0 <= i < d.len() implies crate::grammar::is_digit(#[trigger] d[i]) by {
            if i < d.len() - 1 {
                assert(d[i] == crate::text::decimal(n / 10)[i]);
            }
        }
    }
}

/// A list index spelled in decimal reads as the number spelled, for every
/// number that fits in `usize`.
pub proof fn lemma_index_reads_decimal(n: nat)
    requires
        n <= usize::MAX,
    ensures
        usize_text(crate::text::decimal(n)) == Some(n),
{
    lemma_decimal_digits(n);
    assert(crate::grammar::is_digit(crate::text::decimal(n)[0]));
}

/// A key followed by an index `d` in square brackets.
pub open spec fn keyed_index_text(k: Seq<char>, d: Seq<char>) -> Seq<char> {
    k + "["@ + d + "]"@
}

/// A bare key followed by a list index spelled in decimal, for any number
/// that fits in `usize`, parses to that key and that index.
pub proof fn lemma_parse_key_index(k: Seq<char>, n: nat)
    requires
        spec_is_key(k),
        n <= usize::MAX,
    ensures
        parse_spec(keyed_index_text(k, crate::text::decimal(n))) == Ok::<Seq<SegV>, Seq<char>>(
            seq![SegV::Key(k), SegV::Index(n)],
        ),
{
    let d = crate::text::decimal(n);
    lemma_decimal_digits(n);
    lemma_index_reads_decimal(n);
    reveal_strlit("[");
    reveal_strlit("]");
    let s = keyed_index_text(k, d);
    assert(s =~= k + seq!['['] + d + seq![']']);
    let kl = k.len() as int;
    // the key runs to the `[`
    assert forall|j: int| 0 <= j < kl implies s[j] != '.' && s[j] != '[' by {
        assert(s[j] == k[j]);
        assert(crate::grammar::is_key_char(k[j]));
    }
    assert(s.skip(0) =~= s);
    crate::grammar::lemma_index_of_either_prefix(s, '.', '[', kl);
    assert(s.skip(kl)[0] == '[');
    assert(index_of_either(s.skip(kl), '.', '[') == 0);
    assert(s.subrange(0, kl) =~= k);
    assert(s[0] == k[0]);
    assert(crate::grammar::is_alnum(k[0]));
    assert(path_key(s, 0) == Ok::<(Seq<char>, int), Seq<char>>((k, kl)));
    // the index runs to the `]`
    let t = s.skip(kl);
    assert forall|j: int| 1 <= j < 1 + d.len() implies t[j] != ']' by {
        assert(t[j] == d[j - 1]);
        assert(crate::grammar::is_digit(d[j - 1]));
    }
    assert(t.skip(1)[d.len() as int] == ']');
    assert forall|j: int| 0 <= j < d.len() implies t.skip(1)[j] != ']' && t.skip(1)[j] != ']' by {
        assert(t.skip(1)[j] == d[j]);
        assert(crate::grammar::is_digit(d[j]));
    }
    crate::grammar::lemma_index_of_either_prefix(t.skip(1), ']', ']', d.len() as int);
    assert(t.skip(1).skip(d.len() as int)[0] == ']');
    assert(index_of_either(t.skip(1).skip(d.len() as int), ']', ']') == 0);
    assert(index_of_either(t, ']', ']') == 1 + index_of_either(t.drop_first(), ']', ']'));
    assert(t.drop_first() =~= t.skip(1));
    let close = 1 + d.len() as int;
    assert(index_of_either(t, ']', ']') == close);
    assert(s.subrange(kl + 1, kl + close) =~= d);
    assert(s.len() == kl + close + 1);
    let segs = seq![SegV::Key(k)];
    assert(Seq::<SegV>::empty().push(SegV::Key(k)) =~= segs);
    assert(indices_from(s, kl + close + 1, segs.push(SegV::Index(n))) == Ok::<(Seq<SegV>, int), Seq<char>>(
        (segs.push(SegV::Index(n)), kl + close + 1),
    ));
    assert(indices_from(s, kl, segs) == Ok::<(Seq<SegV>, int), Seq<char>>((segs.push(SegV::Index(n)), s.len() as int)));
    assert(segs.push(SegV::Index(n)) =~= seq![SegV::Key(k), SegV::Index(n)]);
}

/// Changing the node of one entry leaves where every key is found.
proof fn lemma_find_update(m: Seq<(Seq<char>, NodeV)>, i: int, x: NodeV, k: Seq<char>)
    requires
        0 <= i < m.len(),
    ensures
        map_find(m.update(i, (m[i].0, x)), k) == map_find(m, k),
{
    let m2 = m.update(i, (m[i].0, x));
    lemma_map_find(m, k);
    lemma_map_find(m2, k);
    match map_find(m, k) {
        Some(j) => {
            crate::value::lemma_map_find_unique(m2, k, j);
        },
        None => {
            if let Some(j) = map_find(m2, k) {
                assert(m[j].0 == m2[j].0);
            }
        },
    }
}

/// Appending an entry for another key leaves where a key is found.
proof fn lemma_find_push(m: Seq<(Seq<char>, NodeV)>, e: (Seq<char>, NodeV), k: Seq<char>)
    requires
        e.0 != k,
    ensures
        map_find(m.push(e), k) == map_find(m, k),
{
    let m2 = m.push(e);
    lemma_map_find(m, k);
    lemma_map_find(m2, k);
    match map_find(m, k) {
        Some(j) => {
            crate::value::lemma_map_find_unique(m2, k, j);
        },
        None => {
            if let Some(j) = map_find(m2, k) {
                if j < m.len() {
                    assert(m[j].0 == m2[j].0);
                }
            }
        },
    }
}

/// Taking out the entry of another key leaves every other key found, at
/// an entry with the same node.
proof fn lemma_find_remove(m: Seq<(Seq<char>, NodeV)>, i: int, k: Seq<char>)
    requires
        0 <= i < m.len(),
        m[i].0 != k,
    ensures
        match map_find(m, k) {
            None => map_find(m.remove(i), k) is None,
            Some(j) => map_find(m.remove(i), k) matches Some(j2) && m.remove(i)[j2] == m[j],
        },
{
    let m2 = m.remove(i);
    lemma_map_find(m, k);
    lemma_map_find(m2, k);
    match map_find(m, k) {
        Some(j) => {
            let j2 = if j < i {
                j
            } else {
                j - 1
            };
            assert(m2[j2] == m[j]);
            assert forall|t: int| 0 <= t < j2 implies m2[t].0 != k by {
                if t < i {
                    assert(m2[t] == m[t]);
                } else {
                    assert(m2[t] == m[t + 1]);
                }
            }
            crate::value::lemma_map_find_unique(m2, k, j2);
        },
        None => {
            if let Some(j) = map_find(m2, k) {
                if j < i {
                    assert(m2[j] == m[j]);
                } else {
                    assert(m2[j] == m[j + 1]);
                }
            }
        },
    }
}

/// Two paths part ways: at some position both have a segment, and the
/// segments differ.
pub open spec fn diverge(p: Seq<SegV>, q: Seq<SegV>) -> bool
    decreases p.len(),
{
    p.len() > 0 && q.len() > 0 && (p[0] != q[0] || diverge(p.drop_first(), q.drop_first()))
}

/// A write touches only what lies on its path: after a successful `set`
/// at `p`, every path that resolved before and parts ways with `p`
/// resolves to the same node as before (siblings and their subtrees are
/// kept).
pub proof fn lemma_set_keeps_others(n: NodeV, p: Seq<SegV>, q: Seq<SegV>, v: NodeV)
    requires
        set_at(n, p, v).1 is None,
        diverge(p, q),
        get_at(n, q) is Some,
    ensures
        get_at(set_at(n, p, v).0, q) == get_at(n, q),
    decreases p.len(),
{
    let n2 = set_at(n, p, v).0;
    match p[0] {
        SegV::Key(k) => match n {
            NodeV::Mapping(m) => {
                let k2 = q[0]->Key_0;
                assert(q[0] is Key);
                lemma_map_find(m, k2);
                let j = map_find(m, k2)->Some_0;
                if p.len() == 1 {
                    assert(p.drop_first().len() == 0);
                    assert(!diverge(p.drop_first(), q.drop_first()));
                    assert(p[0] != q[0]);
                    assert(k2 != k);
                    lemma_map_find(m, k);
                    match map_find(m, k) {
                        Some(i) => {
                            lemma_find_update(m, i, v, k2);
                        },
                        None => {
                            lemma_find_push(m, (k, v), k2);
                        },
                    }
                    let m3 = n2->Mapping_0;
                    assert(m3[j] == m[j]);
                } else {
                    let m2 = match map_find(m, k) {
                        Some(i) => m,
                        None => m.push((k, NodeV::Mapping(Seq::empty()))),
                    };
                    let i = match map_find(m, k) {
                        Some(i) => i,
                        None => m.len() as int,
                    };
                    lemma_map_find(m, k);
                    let (c2, r) = set_at(m2[i].1, p.drop_first(), v);
                    let m3 = m2.update(i, (m2[i].0, c2));
                    assert(n2 == NodeV::Mapping(m3));
                    lemma_find_update(m2, i, c2, k2);
                    if k2 != k {
                        if map_find(m, k) is None {
                            lemma_find_push(m, (k, NodeV::Mapping(Seq::empty())), k2);
                        }
                        assert(j != i);
                        assert(m3[j] == m[j]);
                    } else {
                        assert(map_find(m, k) == Some(j));
                        assert(m2 == m);
                        assert(diverge(p.drop_first(), q.drop_first()));
                        lemma_set_keeps_others(m[j].1, p.drop_first(), q.drop_first(), v);
                    }
                }
            },
            _ => {},
        },
        SegV::Index(i) => match n {
            NodeV::List(l) => {
                let i2 = q[0]->Index_0;
                assert(q[0] is Index);
                if p.len() == 1 {
                    assert(p.drop_first().len() == 0);
                    assert(!diverge(p.drop_first(), q.drop_first()));
                    assert(p[0] != q[0]);
                    assert(i2 != i);
                } else {
                    let (c2, r) = set_at(l[i as int], p.drop_first(), v);
                    if i2 == i {
                        assert(diverge(p.drop_first(), q.drop_first()));
                        lemma_set_keeps_others(l[i as int], p.drop_first(), q.drop_first(), v);
                    }
                }
            },
            _ => {},
        },
    }
}

/// A removal touches only what lies on its path: after a successful
/// `remove` of a map entry at `p` (its last segment a key), every path
/// that resolved before and parts ways with `p` resolves to the same node
/// as before (other entries are kept).
pub proof fn lemma_remove_keeps_others(n: NodeV, p: Seq<SegV>, q: Seq<SegV>)
    requires
        remove_at(n, p, false).1 is Ok,
        p.len() > 0,
        p.last() is Key,
        diverge(p, q),
        get_at(n, q) is Some,
    ensures
        get_at(remove_at(n, p, false).0, q) == get_at(n, q),
    decreases p.len(),
{
    let n2 = remove_at(n, p, false).0;
    match p[0] {
        SegV::Key(k) => match n {
            NodeV::Mapping(m) => {
                let k2 = q[0]->Key_0;
                assert(q[0] is Key);
                lemma_map_find(m, k2);
                lemma_map_find(m, k);
                let j = map_find(m, k2)->Some_0;
                let i = map_find(m, k)->Some_0;
                if p.len() == 1 {
                    assert(p.drop_first().len() == 0);
                    assert(!diverge(p.drop_first(), q.drop_first()));
                    assert(p[0] != q[0]);
                    assert(k2 != k);
                    lemma_find_remove(m, i, k2);
                } else {
                    let (c2, r) = remove_at(m[i].1, p.drop_first(), false);
                    let m3 = m.update(i, (m[i].0, c2));
                    assert(n2 == NodeV::Mapping(m3));
                    lemma_find_update(m, i, c2, k2);
                    if k2 != k {
                        assert(j != i);
                        assert(m3[j] == m[j]);
                    } else {
                        assert(j == i);
                        assert(diverge(p.drop_first(), q.drop_first()));
                        assert(p.drop_first().last() == p.last());
                        lemma_remove_keeps_others(m[i].1, p.drop_first(), q.drop_first());
                    }
                }
            },
            _ => {},
        },
        SegV::Index(i) => match n {
            NodeV::List(l) => {
                let i2 = q[0]->Index_0;
                assert(q[0] is Index);
                assert(p.len() > 1);
                let (c2, r) = remove_at(l[i as int], p.drop_first(), false);
                if i2 == i {
                    assert(diverge(p.drop_first(), q.drop_first()));
                    assert(p.drop_first().last() == p.last());
                    lemma_remove_keeps_others(l[i as int], p.drop_first(), q.drop_first());
                }
            },
            _ => {},
        },
    }
}

/// Removing the entry for key `k` from the map at path `pre` leaves that
/// map with exactly its other entries, in order, and hands back the node
/// the entry held. With pruning the map itself stays where it is, as long
/// as other entries remain.
pub proof fn lemma_remove_takes_out_entry(
    n: NodeV,
    pre: Seq<SegV>,
    m: Seq<(Seq<char>, NodeV)>,
    k: Seq<char>,
    prune: bool,
)
    requires
        get_at(n, pre) == Some(NodeV::Mapping(m)),
        map_find(m, k) is Some,
        !prune || m.len() > 1,
    ensures
        remove_at(n, pre.push(SegV::Key(k)), prune).1 == Ok::<NodeV, OpFail>(m[map_find(m, k)->Some_0].1),
        get_at(remove_at(n, pre.push(SegV::Key(k)), prune).0, pre) == Some(
            NodeV::Mapping(m.remove(map_find(m, k)->Some_0)),
        ),
    decreases pre.len(),
{
    let p = pre.push(SegV::Key(k));
    lemma_map_find(m, k);
    let i = map_find(m, k)->Some_0;
    if pre.len() == 0 {
        assert(n == NodeV::Mapping(m));
        assert(p[0] == SegV::Key(k));
        assert(p.len() == 1);
        assert(remove_at(n, p, prune).0 == NodeV::Mapping(m.remove(i)));
    } else {
        assert(p[0] == pre[0]);
        assert(p.drop_first() =~= pre.drop_first().push(SegV::Key(k)));
        let rest = pre.drop_first();
        match pre[0] {
            SegV::Key(k0) => {
                let m0 = n->Mapping_0;
                assert(n is Mapping);
                lemma_map_find(m0, k0);
                let j = map_find(m0, k0)->Some_0;
                lemma_remove_takes_out_entry(m0[j].1, rest, m, k, prune);
                let (c2, r) = remove_at(m0[j].1, rest.push(SegV::Key(k)), prune);
                lemma_find_update(m0, j, c2, k0);
                // the map left below stays a non-empty map or no map at all
                if rest.len() == 0 {
                    assert(get_at(c2, rest) == Some(c2));
                    assert(m.remove(i).len() > 0 || !prune);
                } else {
                    lemma_resolved_shape(c2, rest);
                }
                if prune && c2 is Mapping {
                    assert(c2->Mapping_0.len() > 0);
                }
                assert(get_at(remove_at(n, p, prune).0, pre) == get_at(c2, rest));
            },
            SegV::Index(i0) => {
                let l = n->List_0;
                assert(n is List);
                lemma_remove_takes_out_entry(l[i0 as int], rest, m, k, prune);
                let (c2, r) = remove_at(l[i0 as int], rest.push(SegV::Key(k)), prune);
                assert(l.update(i0 as int, c2)[i0 as int] == c2);
            },
        }
    }
}

/// A node that a path of keys and indices resolves through is a map with
/// entries where the path starts with a key, and a list where it starts
/// with an index.
proof fn lemma_resolved_shape(x: NodeV, r: Seq<SegV>)
    requires
        r.len() > 0,
        get_at(x, r) is Some,
    ensures
        r[0] is Key ==> x is Mapping && x->Mapping_0.len() > 0,
        r[0] is Index ==> x is List,
{
    if let SegV::Key(k) = r[0] {
        if let NodeV::Mapping(m) = x {
            lemma_map_find(m, k);
        }
    }
}

/// Setting key `k` in the map at path `pre` leaves that map with the same
/// entries in the same order, the entry for `k` holding the new node, or,
/// when `k` was missing, with one entry for it appended at the end.
pub proof fn lemma_set_in_map(n: NodeV, pre: Seq<SegV>, m: Seq<(Seq<char>, NodeV)>, k: Seq<char>, v: NodeV)
    requires
        get_at(n, pre) == Some(NodeV::Mapping(m)),
    ensures
        set_at(n, pre.push(SegV::Key(k)), v).1 is None,
        get_at(set_at(n, pre.push(SegV::Key(k)), v).0, pre) == Some(
            NodeV::Mapping(
                match map_find(m, k) {
                    Some(i) => m.update(i, (k, v)),
                    None => m.push((k, v)),
                },
            ),
        ),
    decreases pre.len(),
{
    let p = pre.push(SegV::Key(k));
    lemma_map_find(m, k);
    if pre.len() == 0 {
        assert(n == NodeV::Mapping(m));
        assert(p[0] == SegV::Key(k));
        assert(p.len() == 1);
    } else {
        assert(p[0] == pre[0]);
        assert(p.drop_first() =~= pre.drop_first().push(SegV::Key(k)));
        let rest = pre.drop_first();
        match pre[0] {
            SegV::Key(k0) => {
                let m0 = n->Mapping_0;
                assert(n is Mapping);
                lemma_map_find(m0, k0);
                let j = map_find(m0, k0)->Some_0;
                lemma_set_in_map(m0[j].1, rest, m, k, v);
                let (c2, r) = set_at(m0[j].1, rest.push(SegV::Key(k)), v);
                lemma_find_update(m0, j, c2, k0);
            },
            SegV::Index(i0) => {
                let l = n->List_0;
                assert(n is List);
                lemma_set_in_map(l[i0 as int], rest, m, k, v);
                let (c2, r) = set_at(l[i0 as int], rest.push(SegV::Key(k)), v);
                assert(l.update(i0 as int, c2)[i0 as int] == c2);
            },
        }
    }
}

} // verus!
