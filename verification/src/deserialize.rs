//! Parser: KVD text to a node tree. Parsing is line-based recursive
//! descent with one line of lookahead; errors carry a line:col position
//! and a category.
//!
//! The `__schema__` metakey is validated but kept as an ordinary entry of
//! the root map, so schema documents survive a parse and re-serialization.
use vstd::prelude::*;
use crate::error::{Error, ErrorKind};
use crate::grammar::{
    index_of_either, lemma_index_of_either_bounds, spec_is_builtin_type, spec_is_float, spec_is_int,
    spec_is_key, spec_is_known_metakey, spec_is_metakey, spec_is_type_name,
};
use crate::lexer::{error_is, quoted_spec, scan_quoted, stripped, stripped_len, text_limit, ErrV};
use crate::text::{bytes_len, extend, extend_range, extend_str, lemma_bytes_len_bound, string_of_range};
use crate::value::{
    depth_ok, keys_unique, lemma_depth_map_elim, lemma_map_find, lemma_push_entry, lemma_update_entry,
    lemma_wf_map, map_find, views_of, wf_node, Mapping, Node, NodeV, Scalar, ScalarV, Shape,
};

verus! {

/// The pieces of `s` between newline characters (at least one).
pub open spec fn pieces(s: Seq<char>) -> Seq<Seq<char>>
    decreases s.len(),
{
    let k = index_of_either(s, '\n', '\n');
    if k >= s.len() || k < 0 {
        seq![s]
    } else {
        proof {
            lemma_index_of_either_bounds(s, '\n', '\n');
        }
        seq![s.take(k)] + pieces(s.skip(k + 1))
    }
}

/// The source lines of a document: its newline-separated pieces, without
/// the empty piece a final newline leaves.
pub open spec fn doc_lines(s: Seq<char>) -> Seq<Seq<char>> {
    let p = pieces(s);
    if p.len() > 0 && p.last().len() == 0 {
        p.drop_last()
    } else {
        p
    }
}

/// Number of leading spaces of `l`.
pub open spec fn lead_spaces(l: Seq<char>) -> nat
    decreases l.len(),
{
    if l.len() > 0 && l[0] == ' ' {
        1 + lead_spaces(l.drop_first())
    } else {
        0
    }
}

/// A line with nothing but indentation, whitespace and a comment.
pub open spec fn blank_line(l: Seq<char>) -> bool {
    stripped(l.skip(lead_spaces(l) as int)).len() == 0
}

/// A scalar whose raw token is its text.
pub open spec fn plain_scalar(shape: Shape, t: Seq<char>) -> NodeV {
    NodeV::Scalar(ScalarV { shape, text: t, raw: t })
}

/// What a value token denotes, for a token whose first character sits at
/// column `col` of line `line`: a quoted string, `{}`/`[]`, a keyword, a
/// number, or a bare type name; anything else is an error.
pub open spec fn token_spec(tok: Seq<char>, line: nat, col: nat) -> Result<NodeV, ErrV> {
    if tok.len() > 0 && (tok[0] == '"' || tok[0] == '\'') {
        match quoted_spec(tok, line, col) {
            Err(d) => Err(d),
            Ok((text, used)) => if used != tok.len() {
                Err(
                    (
                        ErrorKind::UnexpectedCharacter,
                        line,
                        (col + (tok.len() - 1) + bytes_len(tok.take(used))) as nat,
                        "unexpected content after string"@,
                    ),
                )
            } else {
                Ok(NodeV::Scalar(ScalarV { shape: Shape::Str, text, raw: tok }))
            },
        }
    } else if tok == "{}"@ {
        Ok(NodeV::Mapping(Seq::empty()))
    } else if tok == "[]"@ {
        Ok(NodeV::List(Seq::empty()))
    } else if tok == "true"@ || tok == "false"@ {
        Ok(plain_scalar(Shape::Bool, tok))
    } else if tok == "null"@ {
        Ok(plain_scalar(Shape::Null, tok))
    } else if spec_is_int(tok) {
        Ok(plain_scalar(Shape::Int, tok))
    } else if spec_is_float(tok) {
        Ok(plain_scalar(Shape::Float, tok))
    } else if spec_is_builtin_type(tok) || spec_is_type_name(tok) {
        Ok(plain_scalar(Shape::Str, tok))
    } else {
        Err(
            (
                ErrorKind::UnexpectedCharacter,
                line,
                col,
                "invalid value token `"@ + tok + "` (string values must be double-quoted)"@,
            ),
        )
    }
}

/// Classifies the value token `s[lo..hi]`, whose first character sits at
/// column `col`, into a scalar or an empty map/list literal.
pub fn scalar_from_token(s: &Vec<char>, lo: usize, hi: usize, line_no: usize, col: usize) -> (r: Result<Node, Error>)
    requires
        lo <= hi <= s@.len(),
        col + 5 * (hi - lo) + 2 <= usize::MAX,
    ensures
        match token_spec(s@.subrange(lo as int, hi as int), line_no as nat, col as nat) {
            Ok(x) => r matches Ok(n) && n@ == x,
            Err(d) => r matches Err(e) && error_is(e, d),
        },
{
    let ghost tok = s@.subrange(lo as int, hi as int);
    proof {
        lemma_bytes_len_bound(tok);
    }
    if lo < hi && (s[lo] == '"' || s[lo] == '\'') {
        assert(tok[0] == s@[lo as int]);
        let (text, used, b) = scan_quoted(s, lo, hi, line_no, col)?;
        if used != hi - lo {
            proof {
                crate::text::lemma_bytes_len_prefix(tok, used as int);
            }
            return Err(Error::new(ErrorKind::UnexpectedCharacter, line_no, col + (hi - lo - 1) + b, "unexpected content after string"));
        }
        let t = crate::text::string_of(&text);
        let raw = string_of_range(s, lo, hi);
        return Ok(Node::Scalar(Scalar { shape: Shape::Str, text: t, raw }));
    }
    if crate::grammar::range_is(s, lo, hi, "{}") {
        return Ok(Node::map(Mapping::new()));
    }
    if crate::grammar::range_is(s, lo, hi, "[]") {
        let n = Node::list(Vec::new());
        assert(n@->List_0 =~= Seq::<NodeV>::empty());
        return Ok(n);
    }
    let shape = if crate::grammar::range_is(s, lo, hi, "true") || crate::grammar::range_is(s, lo, hi, "false") {
        Some(Shape::Bool)
    } else if crate::grammar::range_is(s, lo, hi, "null") {
        Some(Shape::Null)
    } else if crate::grammar::is_int_range(s, lo, hi) {
        Some(Shape::Int)
    } else if crate::grammar::is_float_range(s, lo, hi) {
        Some(Shape::Float)
    } else if crate::grammar::is_builtin_type_range(s, lo, hi) || crate::grammar::is_type_name_range(s, lo, hi) {
        Some(Shape::Str)
    } else {
        None
    };
    match shape {
        Some(sh) => {
            let t = string_of_range(s, lo, hi);
            let raw = string_of_range(s, lo, hi);
            Ok(Node::Scalar(Scalar { shape: sh, text: t, raw }))
        },
        None => {
            let mut msg: Vec<char> = Vec::new();
            extend_str(&mut msg, "invalid value token `");
            extend_range(&mut msg, s, lo, hi);
            extend_str(&mut msg, "` (string values must be double-quoted)");
            Err(Error::from_chars(ErrorKind::UnexpectedCharacter, line_no, col, &msg))
        },
    }
}

/// Why an unquoted path segment is not a valid key, if it is not: metakeys
/// are accepted only as the first segment at the document root, and only
/// the known one; other segments must be bare keys.
pub open spec fn key_seg_spec(raw: Seq<char>, first: bool, root: bool, line: nat, col: nat) -> Option<ErrV> {
    if spec_is_metakey(raw) {
        if first && root {
            if !spec_is_known_metakey(raw) {
                Some((ErrorKind::UnknownMetakey, line, col, "unknown metakey `"@ + raw + "`"@))
            } else {
                None
            }
        } else {
            Some(
                (
                    ErrorKind::MetakeyOutsideRoot,
                    line,
                    col,
                    "metakey `"@ + raw + "` is only allowed at the document root"@,
                ),
            )
        }
    } else if !spec_is_key(raw) {
        Some(
            (
                ErrorKind::UnexpectedCharacter,
                line,
                col,
                "invalid key `"@ + raw + "` (keys are alphanumerics plus '-'/'_', quoted otherwise)"@,
            ),
        )
    } else {
        None
    }
}

/// Validates one unquoted path segment `s[lo..hi]` against the key and
/// metakey grammar.
pub fn validate_key_seg(s: &Vec<char>, lo: usize, hi: usize, first: bool, root: bool, line_no: usize, col: usize) -> (r: Result<(), Error>)
    requires
        lo <= hi <= s@.len(),
    ensures
        match key_seg_spec(s@.subrange(lo as int, hi as int), first, root, line_no as nat, col as nat) {
            None => r is Ok,
            Some(d) => r matches Err(e) && error_is(e, d),
        },
{
    if crate::grammar::is_metakey_range(s, lo, hi) {
        if first && root {
            if !crate::grammar::range_is(s, lo, hi, "__schema__") {
                let mut msg: Vec<char> = Vec::new();
                extend_str(&mut msg, "unknown metakey `");
                extend_range(&mut msg, s, lo, hi);
                extend_str(&mut msg, "`");
                return Err(Error::from_chars(ErrorKind::UnknownMetakey, line_no, col, &msg));
            }
            return Ok(());
        }
        let mut msg: Vec<char> = Vec::new();
        extend_str(&mut msg, "metakey `");
        extend_range(&mut msg, s, lo, hi);
        extend_str(&mut msg, "` is only allowed at the document root");
        return Err(Error::from_chars(ErrorKind::MetakeyOutsideRoot, line_no, col, &msg));
    }
    if !crate::grammar::is_key_range(s, lo, hi) {
        let mut msg: Vec<char> = Vec::new();
        extend_str(&mut msg, "invalid key `");
        extend_range(&mut msg, s, lo, hi);
        extend_str(&mut msg, "` (keys are alphanumerics plus '-'/'_', quoted otherwise)");
        return Err(Error::from_chars(ErrorKind::UnexpectedCharacter, line_no, col, &msg));
    }
    Ok(())
}

/// One segment of a dotted path starting at `s[c]`: a quoted key (decoded)
/// or a bare key running to the next `.` or `:`, with the index after it.
pub open spec fn seg_step(s: Seq<char>, c: int, first: bool, root: bool, line: nat, col: nat) -> Result<(Seq<char>, int), ErrV> {
    if s[c] == '"' || s[c] == '\'' {
        match quoted_spec(s.skip(c), line, col) {
            Err(d) => Err(d),
            Ok((text, used)) => if text.len() == 0 {
                Err((ErrorKind::BadPath, line, col, "empty quoted key"@))
            } else {
                Ok((text, c + used))
            },
        }
    } else {
        let end = c + index_of_either(s.skip(c), '.', ':');
        let raw = s.subrange(c, end);
        if end == c {
            Err((ErrorKind::BadPath, line, col, "empty path segment"@))
        } else {
            match key_seg_spec(raw, first, root, line, col) {
                Some(d) => Err(d),
                None => Ok((raw, end)),
            }
        }
    }
}

/// A dotted path `seg ("." seg)* ":"` scanned from index `c` of `s`, with
/// `segs` already read; the path string starts at column `base`. `None`
/// means `s` cannot be a pair (nothing at all, or a single bare word);
/// otherwise the segments and the index just past the `:`.
pub open spec fn path_from(s: Seq<char>, c: int, segs: Seq<Seq<char>>, line: nat, base: nat, root: bool) -> Result<
    Option<(Seq<Seq<char>>, int)>,
    ErrV,
>
    decreases s.len() - c,
{
    if c < 0 || c > s.len() {
        Ok(None)
    } else if c == s.len() {
        if segs.len() == 0 {
            Ok(None)
        } else {
            Err((ErrorKind::UnexpectedCharacter, line, (base + c) as nat, "expected ':'"@))
        }
    } else {
        match seg_step(s, c, segs.len() == 0, root, line, (base + c) as nat) {
            Err(d) => Err(d),
            Ok((seg, c2)) => {
                let segs2 = segs.push(seg);
                if c < c2 < s.len() && s[c2] == '.' {
                    path_from(s, c2 + 1, segs2, line, base, root)
                } else if 0 <= c2 < s.len() && s[c2] == ':' {
                    Ok(Some((segs2, c2 + 1)))
                } else if segs2.len() == 1 && !s.take(c2).contains('.') {
                    Ok(None)
                } else {
                    Err((ErrorKind::UnexpectedCharacter, line, (base + c) as nat, "expected '.' or ':'"@))
                }
            },
        }
    }
}

/// Reads one path segment at `s[c]`, within the path string `s[0..hi]`.
fn scan_segment(s: &Vec<char>, c: usize, hi: usize, first: bool, root: bool, line_no: usize, col: usize) -> (r: Result<(Vec<char>, usize), Error>)
    requires
        c < hi <= s@.len(),
        col + 5 * (hi - c) + 2 <= usize::MAX,
    ensures
        match seg_step(s@.take(hi as int), c as int, first, root, line_no as nat, col as nat) {
            Ok((seg, c2)) => r matches Ok((v, n)) && v@ == seg && n == c2 && c < c2 <= hi && seg.len() > 0,
            Err(d) => r matches Err(e) && error_is(e, d),
        },
{
    let ghost t = s@.take(hi as int);
    assert(t[c as int] == s@[c as int]);
    assert(s@.subrange(c as int, hi as int) =~= t.skip(c as int));
    if s[c] == '"' || s[c] == '\'' {
        proof {
            crate::text::lemma_bytes_len_bound(s@.subrange(c as int, hi as int));
        }
        let (text, used, _b) = scan_quoted(s, c, hi, line_no, col)?;
        if text.len() == 0 {
            return Err(Error::new(ErrorKind::BadPath, line_no, col, "empty quoted key"));
        }
        Ok((text, c + used))
    } else {
        let end = crate::grammar::find_either(s, c, hi, '.', ':');
        assert(s@.subrange(c as int, end as int) =~= t.subrange(c as int, end as int));
        if end == c {
            return Err(Error::new(ErrorKind::BadPath, line_no, col, "empty path segment"));
        }
        validate_key_seg(s, c, end, first, root, line_no, col)?;
        let mut raw: Vec<char> = Vec::new();
        extend_range(&mut raw, s, c, end);
        Ok((raw, end))
    }
}

/// Whether `s[0..n]` holds a `.`.
fn has_dot(s: &Vec<char>, n: usize) -> (r: bool)
    requires
        n <= s@.len(),
    ensures
        r == s@.take(n as int).contains('.'),
{
    let dot = crate::grammar::find_either(s, 0, n, '.', '.');
    proof {
        crate::grammar::lemma_index_of_either_bounds(s@.subrange(0, n as int), '.', '.');
        assert(s@.subrange(0, n as int) =~= s@.take(n as int));
        if dot < n {
            assert(s@.take(n as int)[dot as int] == '.');
        }
    }
    dot < n
}

/// Scans a dotted path `seg ("." seg)* ":"` at the start of `s[0..hi]`,
/// whose first character sits at column `base_col`. Returns `None` when
/// the text cannot be a pair, else the segments and the index just past
/// the `:`. Metakeys are validated on the way.
pub fn scan_path(s: &Vec<char>, hi: usize, line_no: usize, base_col: usize, root: bool) -> (r: Result<Option<(Vec<Vec<char>>, usize)>, Error>)
    requires
        hi <= s@.len(),
        base_col + 5 * hi + 2 <= usize::MAX,
    ensures
        match path_from(s@.take(hi as int), 0, Seq::empty(), line_no as nat, base_col as nat, root) {
            Ok(None) => r matches Ok(None),
            Ok(Some((segs, after))) => r matches Ok(Some((v, a))) && views_of(v@) == segs && a == after
                && 0 < after <= hi && segs.len() > 0 && forall|j: int| 0 <= j < segs.len() ==> #[trigger] segs[j].len() > 0,
            Err(d) => r matches Err(e) && error_is(e, d),
        },
{
    let ghost t = s@.take(hi as int);
    let mut segs: Vec<Vec<char>> = Vec::new();
    let mut c: usize = 0;
    assert(views_of(segs@) =~= Seq::<Seq<char>>::empty());
    while c < hi
        invariant
            c <= hi,
            hi <= s@.len(),
            t == s@.take(hi as int),
            base_col + 5 * hi + 2 <= usize::MAX,
            path_from(t, c as int, views_of(segs@), line_no as nat, base_col as nat, root) == path_from(
                t,
                0,
                Seq::empty(),
                line_no as nat,
                base_col as nat,
                root,
            ),
            forall|j: int| 0 <= j < segs@.len() ==> #[trigger] segs@[j]@.len() > 0,
        decreases hi - c,
    {
        let col = base_col + c;
        let ghost before = views_of(segs@);
        let (seg, c2) = scan_segment(s, c, hi, segs.len() == 0, root, line_no, col)?;
        segs.push(seg);
        proof {
            assert(views_of(segs@) =~= before.push(seg@));
        }
        if c2 < hi && s[c2] == '.' {
            assert(t[c2 as int] == s@[c2 as int]);
            c = c2 + 1;
        } else if c2 < hi && s[c2] == ':' {
            assert(t[c2 as int] == s@[c2 as int]);
            return Ok(Some((segs, c2 + 1)));
        } else {
            proof {
                if c2 < hi {
                    assert(t[c2 as int] == s@[c2 as int]);
                }
                assert(s@.take(c2 as int) =~= t.take(c2 as int));
            }
            if segs.len() == 1 && !has_dot(s, c2) {
                return Ok(None);
            }
            return Err(Error::new(ErrorKind::UnexpectedCharacter, line_no, col, "expected '.' or ':'"));
        }
    }
    if segs.len() == 0 {
        return Ok(None);
    }
    Err(Error::new(ErrorKind::UnexpectedCharacter, line_no, base_col + c, "expected ':'"))
}

/// Segments joined with dots.
pub open spec fn join_dots(p: Seq<Seq<char>>) -> Seq<char>
    decreases p.len(),
{
    if p.len() == 0 {
        Seq::empty()
    } else if p.len() == 1 {
        p[0]
    } else {
        join_dots(p.drop_last()) + "."@ + p.last()
    }
}

/// The entries of `m` after placing `v` at `path[i..]` below it, creating
/// intermediate maps; placing onto an existing key, or under a key that
/// holds a value that is not a map, is an error on line `line`.
pub open spec fn insert_spec(m: Seq<(Seq<char>, NodeV)>, path: Seq<Seq<char>>, i: int, v: NodeV, line: nat) -> Result<
    Seq<(Seq<char>, NodeV)>,
    ErrV,
>
    decreases path.len() - i,
{
    if i < 0 || i >= path.len() {
        Ok(m)
    } else if i + 1 == path.len() {
        if map_find(m, path[i]) is Some {
            Err((ErrorKind::DuplicateKey, line, 1, "duplicate key `"@ + join_dots(path) + "`"@))
        } else {
            Ok(m.push((path[i], v)))
        }
    } else {
        let (m1, idx) = match map_find(m, path[i]) {
            Some(k) => (m, k),
            None => (m.push((path[i], NodeV::Mapping(Seq::empty()))), m.len() as int),
        };
        match m1[idx].1 {
            NodeV::Mapping(inner) => match insert_spec(inner, path, i + 1, v, line) {
                Ok(inner2) => Ok(m1.update(idx, (path[i], NodeV::Mapping(inner2)))),
                Err(d) => Err(d),
            },
            _ => Err(
                (
                    ErrorKind::LeafInteriorConflict,
                    line,
                    1,
                    "`"@ + join_dots(path.take(i + 1)) + "` is already a value but `"@ + join_dots(path)
                        + "` nests under it"@,
                ),
            ),
        }
    }
}

/// The first `n` segments of `path`, joined with dots.
fn join_segments(path: &Vec<Vec<char>>, n: usize) -> (r: Vec<char>)
    requires
        n <= path@.len(),
    ensures
        r@ == join_dots(views_of(path@).take(n as int)),
{
    let mut r: Vec<char> = Vec::new();
    let mut k: usize = 0;
    assert(views_of(path@).take(0) =~= Seq::<Seq<char>>::empty());
    while k < n
        invariant
            k <= n <= path@.len(),
            r@ == join_dots(views_of(path@).take(k as int)),
        decreases n - k,
    {
        let ghost before = r@;
        if k > 0 {
            extend_str(&mut r, ".");
        }
        extend(&mut r, &path[k]);
        k += 1;
        proof {
            let p = views_of(path@).take(k as int);
            assert(p.drop_last() =~= views_of(path@).take(k - 1));
            assert(p.last() == path@[k - 1]@);
            if k == 1 {
                assert(before =~= Seq::<char>::empty());
                assert(r@ =~= path@[0]@);
            } else {
                assert(r@ =~= before + "."@ + path@[k - 1]@);
            }
        }
    }
    r
}

/// Inserts `value` at `path[i..]` below `map`, creating intermediate maps.
/// Collisions are errors: a key given twice, or a key nested under a
/// value that is not a map.
fn insert_path_at(
    map: Mapping,
    path: &Vec<Vec<char>>,
    i: usize,
    value: Node,
    line_no: usize,
    Ghost(budget): Ghost<int>,
) -> (r: Result<Mapping, Error>)
    requires
        i < path@.len(),
        forall|j: int| 0 <= j < path@.len() ==> #[trigger] path@[j]@.len() > 0,
        wf_node(NodeV::Mapping(map@)),
        wf_node(value@),
        depth_ok(NodeV::Mapping(map@), budget),
        budget >= path@.len() - i,
        depth_ok(value@, budget - (path@.len() - i)),
    ensures
        match insert_spec(map@, views_of(path@), i as int, value@, line_no as nat) {
            Ok(m2) => r matches Ok(x) && x@ == m2,
            Err(d) => r matches Err(e) && error_is(e, d),
        },
        r matches Ok(x) ==> wf_node(NodeV::Mapping(x@)) && depth_ok(NodeV::Mapping(x@), budget),
    decreases path@.len() - i,
{
    let mut map = map;
    let ghost p = views_of(path@);
    assert(p[i as int] == path@[i as int]@);
    let found = map.find(&path[i]);
    if i == path.len() - 1 {
        if found.is_some() {
            let mut msg: Vec<char> = Vec::new();
            extend_str(&mut msg, "duplicate key `");
            let j = join_segments(path, path.len());
            extend(&mut msg, &j);
            extend_str(&mut msg, "`");
            assert(p.take(p.len() as int) =~= p);
            return Err(Error::from_chars(ErrorKind::DuplicateKey, line_no, 1, &msg));
        }
        proof {
            lemma_push_entry(map@, path@[i as int]@, value@, budget);
        }
        map.insert(crate::text::string_of(&path[i]), value);
        return Ok(map);
    }
    let ghost m0 = map@;
    let idx = match found {
        Some(k) => k,
        None => {
            proof {
                crate::value::lemma_depth_exhausted(NodeV::Mapping(Seq::empty()), 0, 0);
                lemma_wf_map(Seq::empty());
                crate::value::lemma_depth_map_intro(Seq::empty(), budget - 1);
                lemma_push_entry(map@, path@[i as int]@, NodeV::Mapping(Seq::empty()), budget);
            }
            map.insert(crate::text::string_of(&path[i]), Node::map(Mapping::new()));
            map.len() - 1
        },
    };
    let ghost m1 = map@;
    assert(m1[idx as int].0 == p[i as int]) by {
        lemma_map_find(m0, p[i as int]);
    }
    let old_node = map.replace_node_at(idx, Node::list(Vec::new()));
    match old_node {
        Node::Mapping(inner) => {
            proof {
                lemma_wf_map(m1);
                lemma_depth_map_elim(m1, budget);
                assert(m1[idx as int].1 == NodeV::Mapping(inner@));
            }
            let inner2 = insert_path_at(inner, path, i + 1, value, line_no, Ghost(budget - 1))?;
            proof {
                lemma_update_entry(m1, idx as int, NodeV::Mapping(inner2@), budget);
            }
            let ghost before = map@;
            map.set_node_at(idx, Node::Mapping(inner2));
            assert(map@ =~= m1.update(idx as int, (p[i as int], NodeV::Mapping(inner2@))));
            Ok(map)
        },
        _ => {
            let mut msg: Vec<char> = Vec::new();
            extend_str(&mut msg, "`");
            let a = join_segments(path, i + 1);
            extend(&mut msg, &a);
            extend_str(&mut msg, "` is already a value but `");
            let j = join_segments(path, path.len());
            extend(&mut msg, &j);
            extend_str(&mut msg, "` nests under it");
            assert(p.take(p.len() as int) =~= p);
            Err(Error::from_chars(ErrorKind::LeafInteriorConflict, line_no, 1, &msg))
        },
    }
}

/// A source line as the reader sees it: its number, its indent, its
/// content after the indent, and the whole line.
pub struct LineV {
    pub no: nat,
    pub indent: nat,
    pub rest: Seq<char>,
    pub raw: Seq<char>,
}

/// The lines of a text, numbered from 1.
pub open spec fn text_lines(text: Seq<char>) -> Seq<LineV> {
    Seq::new(
        doc_lines(text).len(),
        |i: int|
            LineV {
                no: (i + 1) as nat,
                indent: lead_spaces(doc_lines(text)[i]),
                rest: doc_lines(text)[i].skip(lead_spaces(doc_lines(text)[i]) as int),
                raw: doc_lines(text)[i],
            },
    )
}

/// Content length of line `pos` (0 past the end).
pub open spec fn rest_len(ls: Seq<LineV>, pos: int) -> int {
    if 0 <= pos < ls.len() {
        ls[pos].rest.len() as int
    } else {
        0
    }
}

/// The first line at or after `pos` with something besides whitespace and
/// a comment.
pub open spec fn skip_blank(ls: Seq<LineV>, pos: int) -> int
    decreases ls.len() - pos,
{
    if 0 <= pos < ls.len() && stripped(ls[pos].rest).len() == 0 {
        skip_blank(ls, pos + 1)
    } else {
        pos
    }
}

/// A reading that ended at line `p2` of `ls2` got further than line `pos`
/// of `ls`: a later line, or the same line with less left of it.
pub open spec fn advanced(ls: Seq<LineV>, pos: int, ls2: Seq<LineV>, p2: int) -> bool {
    &&& ls2.len() == ls.len()
    &&& pos <= p2 <= ls2.len()
    &&& (pos < p2 || rest_len(ls2, p2) < rest_len(ls, pos))
}

/// A reading that did not get further (never the case).
pub open spec fn stuck() -> ErrV {
    (ErrorKind::BadIndent, 0, 0, Seq::empty())
}

/// The number of the line before `pos` (1 when there is none).
pub open spec fn last_no(ls: Seq<LineV>, pos: int) -> nat {
    let k = if pos == 0 {
        0
    } else {
        pos - 1
    };
    if 0 <= k < ls.len() {
        ls[k].no
    } else {
        1
    }
}

/// The error for a key with neither a value nor an indented subtree.
pub open spec fn missing_value_err(line: nat, col: nat) -> ErrV {
    (ErrorKind::MissingValue, line, col + 1, "key has no value and no indented subtree"@)
}

/// The depth one level down, saturating.
pub open spec fn one_deeper(depth: nat) -> nat {
    if depth < usize::MAX {
        depth + 1
    } else {
        depth
    }
}

/// Line `p` of `ls` with its content replaced by what follows its `- `
/// marker, two columns further right.
pub open spec fn rewritten(ls: Seq<LineV>, p: int) -> Seq<LineV> {
    ls.update(
        p,
        LineV { no: ls[p].no, indent: ls[p].indent + 2, rest: ls[p].rest.skip(2), raw: ls[p].raw },
    )
}

/// The message of a missing closer.
pub open spec fn unterminated_block() -> Seq<char> {
    "unterminated triple-quoted string (missing `\"\"\"`)"@
}

/// Whether a text is whitespace only.
pub open spec fn all_ws_spec(t: Seq<char>) -> bool {
    forall|i: int| 0 <= i < t.len() ==> crate::lexer::is_ws(#[trigger] t[i])
}

/// Number of leading whitespace characters of `t`.
pub open spec fn lead_ws(t: Seq<char>) -> nat
    decreases t.len(),
{
    if t.len() > 0 && crate::lexer::is_ws(t[0]) {
        1 + lead_ws(t.drop_first())
    } else {
        0
    }
}

/// Whether a text is `"""` once surrounding whitespace is trimmed.
pub open spec fn trims_to_triple_spec(t: Seq<char>) -> bool {
    let a = lead_ws(t) as int;
    let b = crate::lexer::trim_end_len(t, t.len() as int);
    b >= a && b - a == 3 && t[a] == '"' && t[a + 1] == '"' && t[a + 2] == '"'
}

/// The content lines of a `"""` block from line `i` on, each as its text,
/// number and indent; whether a closer on its own line ended the block;
/// and the line after the block.
pub open spec fn block_scan(ls: Seq<LineV>, i: int, keycol: nat, content: Seq<(Seq<char>, nat, nat)>) -> Result<
    (Seq<(Seq<char>, nat, nat)>, bool, int),
    ErrV,
>
    decreases ls.len() - i,
{
    if i < 0 || i >= ls.len() {
        Err(
            (
                ErrorKind::Unterminated,
                if ls.len() > 0 {
                    ls.last().no
                } else {
                    0
                },
                1,
                unterminated_block(),
            ),
        )
    } else {
        let l = ls[i];
        if all_ws_spec(l.rest) {
            block_scan(ls, i + 1, keycol, content.push((Seq::empty(), l.no, l.indent)))
        } else if l.indent == keycol && trims_to_triple_spec(l.rest) {
            Ok((content, true, i + 1))
        } else if l.indent < keycol {
            Err((ErrorKind::Unterminated, l.no, l.indent + 1, unterminated_block()))
        } else {
            let te = crate::lexer::trim_end_len(l.rest, l.rest.len() as int);
            if te >= 3 && l.rest[te - 3] == '"' && l.rest[te - 2] == '"' && l.rest[te - 1] == '"' {
                Ok((content.push((l.raw.take(l.indent + te - 3), l.no, l.indent)), false, i + 1))
            } else {
                block_scan(ls, i + 1, keycol, content.push((l.raw, l.no, l.indent)))
            }
        }
    }
}

/// The smallest indent of the non-empty content lines from `k` on, given
/// the smallest so far.
pub open spec fn common_indent(c: Seq<(Seq<char>, nat, nat)>, k: int, seen: bool, common: nat) -> nat
    decreases c.len() - k,
{
    if k < 0 || k >= c.len() {
        common
    } else if c[k].0.len() > 0 {
        let lead = lead_spaces(c[k].0);
        common_indent(
            c,
            k + 1,
            true,
            if !seen || lead < common {
                lead
            } else {
                common
            },
        )
    } else {
        common_indent(c, k + 1, seen, common)
    }
}

/// The text of content lines `k..` after `acc`: lines joined by newlines,
/// each with the common indent cut off and its escapes decoded.
pub open spec fn block_text(c: Seq<(Seq<char>, nat, nat)>, k: int, common: nat, acc: Seq<char>) -> Result<
    Seq<char>,
    ErrV,
>
    decreases c.len() - k,
{
    if k < 0 || k >= c.len() {
        Ok(acc)
    } else {
        let acc1 = if k > 0 {
            acc.push('\n')
        } else {
            acc
        };
        let t = c[k].0;
        if t.len() > 0 {
            let lo = if common < t.len() {
                common as int
            } else {
                t.len() as int
            };
            let piece = t.subrange(lo, t.len() as int);
            match crate::lexer::unescape(piece, 0) {
                Ok(x) => block_text(c, k + 1, common, acc1 + x),
                Err(f) => Err(crate::lexer::esc_error(piece, f, c[k].1, c[k].2 + 1 + common)),
            }
        } else {
            block_text(c, k + 1, common, acc1)
        }
    }
}

/// The text of a `"""` block starting at line `pos` whose closer belongs
/// at column `keycol`, and the line after it.
pub open spec fn triple_spec(ls: Seq<LineV>, pos: int, keycol: nat) -> Result<(Seq<char>, int), ErrV> {
    match block_scan(ls, pos, keycol, Seq::empty()) {
        Err(d) => Err(d),
        Ok((c, nl, end)) => match block_text(c, 0, common_indent(c, 0, false, 0), Seq::empty()) {
            Err(d) => Err(d),
            Ok(t) => Ok(
                (
                    if nl && c.len() > 0 {
                        t.push('\n')
                    } else {
                        t
                    },
                    end,
                ),
            ),
        },
    }
}

/// The scalar a `"""` block reads as.
pub open spec fn block_scalar(text: Seq<char>) -> NodeV {
    NodeV::Scalar(ScalarV { shape: Shape::Str, text, raw: seq!['"'] + text + seq!['"'] })
}

/// Reading the pairs of a map whose keys sit at column `indent`, from line
/// `pos` of `ls`, after the entries `m`: the entries, the lines (list items
/// rewrite theirs) and the next line.
pub open spec fn pairs_spec(
    ls: Seq<LineV>,
    pos: int,
    indent: nat,
    root: bool,
    depth: nat,
    m: Seq<(Seq<char>, NodeV)>,
) -> Result<(Seq<(Seq<char>, NodeV)>, Seq<LineV>, int), ErrV>
    decreases ls.len() - pos, rest_len(ls, pos), 3int,
{
    let p = skip_blank(ls, pos);
    if p < pos || p < 0 || p > ls.len() {
        Err(stuck())
    } else if p == ls.len() {
        Ok((m, ls, p))
    } else {
        let l = ls[p];
        if l.indent < indent {
            Ok((m, ls, p))
        } else if l.indent > indent {
            Err((ErrorKind::BadIndent, l.no, l.indent + 1, "expected keys at column "@ + crate::text::decimal(indent + 1)))
        } else if marker(stripped(l.rest)) {
            Err((ErrorKind::BadListMarker, l.no, l.indent + 1, "list item where a mapping pair was expected"@))
        } else {
            match pair_spec(ls, p, indent, root, depth) {
                Err(d) => Err(d),
                Ok((path, v, ls2, p2)) => if advanced(ls, p, ls2, p2) && p < p2 {
                    match insert_spec(m, path, 0, v, last_no(ls2, p2)) {
                        Err(d) => Err(d),
                        Ok(m2) => pairs_spec(ls2, p2, indent, root, depth, m2),
                    }
                } else {
                    Err(stuck())
                },
            }
        }
    }
}

/// Reading one `path: value` pair at line `pos`, whose key sits at column
/// `keycol`: the path, the value, the lines and the next line.
pub open spec fn pair_spec(ls: Seq<LineV>, pos: int, keycol: nat, root: bool, depth: nat) -> Result<
    (Seq<Seq<char>>, NodeV, Seq<LineV>, int),
    ErrV,
>
    decreases ls.len() - pos, rest_len(ls, pos), 1int,
{
    if pos < 0 || pos >= ls.len() {
        Err(stuck())
    } else {
        let l = ls[pos];
        let s = stripped(l.rest);
        match crate::lexer::first_tab(l.rest, 0, false, false) {
            Some(i) => Err((ErrorKind::Tab, l.no, (keycol + 1 + i) as nat, "tab outside quoted strings"@)),
            None => match path_from(s, 0, Seq::empty(), l.no, keycol + 1, root) {
                Err(d) => Err(d),
                Ok(None) => Err((ErrorKind::UnexpectedCharacter, l.no, keycol + 1, "expected `key:`"@)),
                Ok(Some((segs, after))) => if depth > crate::MAX_DEPTH || segs.len() - 1 > crate::MAX_DEPTH
                    - depth {
                    Err((ErrorKind::DepthLimit, l.no, keycol + 1, "nesting exceeds the maximum depth of 100"@))
                } else {
                    let value_col = keycol + 1 + after;
                    if after >= s.len() {
                        let p = skip_blank(ls, pos + 1);
                        if p < pos + 1 || p > ls.len() {
                            Err(stuck())
                        } else if p == ls.len() || ls[p].indent <= keycol {
                            Err(missing_value_err(l.no, keycol))
                        } else if ls[p].indent != keycol + 2 {
                            Err(
                                (
                                    ErrorKind::BadIndent,
                                    ls[p].no,
                                    ls[p].indent + 1,
                                    "subtree must be indented to column "@ + crate::text::decimal(keycol + 3),
                                ),
                            )
                        } else if marker(stripped(ls[p].rest)) {
                            match items_spec(ls, p, keycol + 2, depth + segs.len(), Seq::empty()) {
                                Err(d) => Err(d),
                                Ok((items, ls2, p2)) => Ok((segs, NodeV::List(items), ls2, p2)),
                            }
                        } else {
                            match pairs_spec(ls, p, keycol + 2, false, depth + segs.len(), Seq::empty()) {
                                Err(d) => Err(d),
                                Ok((m, ls2, p2)) => Ok((segs, NodeV::Mapping(m), ls2, p2)),
                            }
                        }
                    } else if s[after] == ' ' {
                        let v_lo = after + 1;
                        if v_lo < s.len() && s[v_lo] == ' ' {
                            Err(
                                (
                                    ErrorKind::UnexpectedCharacter,
                                    l.no,
                                    (value_col + 1) as nat,
                                    "expected exactly one space after ':'"@,
                                ),
                            )
                        } else if s.subrange(v_lo, s.len() as int) == "\"\"\""@ {
                            match triple_spec(ls, pos + 1, keycol) {
                                Err(d) => Err(d),
                                Ok((text, p2)) => Ok((segs, block_scalar(text), ls, p2)),
                            }
                        } else if s.len() - v_lo >= 3 && s[v_lo] == '"' && s[v_lo + 1] == '"' && s[v_lo + 2]
                            == '"' {
                            Err(
                                (
                                    ErrorKind::UnexpectedCharacter,
                                    l.no,
                                    (value_col + 1) as nat,
                                    "triple-quoted string must start on its own line"@,
                                ),
                            )
                        } else {
                            match token_spec(s.subrange(v_lo, s.len() as int), l.no, (value_col + 1) as nat) {
                                Err(d) => Err(d),
                                Ok(n) => Ok((segs, n, ls, pos + 1)),
                            }
                        }
                    } else {
                        Err(
                            (
                                ErrorKind::UnexpectedCharacter,
                                l.no,
                                value_col as nat,
                                "expected exactly one space after ':'"@,
                            ),
                        )
                    }
                },
            },
        }
    }
}

/// Reading the items of a list whose markers sit at column `indent`, from
/// line `pos`, after the items `items`.
pub open spec fn items_spec(ls: Seq<LineV>, pos: int, indent: nat, depth: nat, items: Seq<NodeV>) -> Result<
    (Seq<NodeV>, Seq<LineV>, int),
    ErrV,
>
    decreases ls.len() - pos, rest_len(ls, pos), 2int,
{
    let p = skip_blank(ls, pos);
    if p < pos || p < 0 || p > ls.len() {
        Err(stuck())
    } else if p == ls.len() {
        Ok((items, ls, p))
    } else {
        let l = ls[p];
        let s = stripped(l.rest);
        let sl = s.len();
        if l.indent < indent {
            Ok((items, ls, p))
        } else if l.indent > indent {
            Err(
                (
                    ErrorKind::BadIndent,
                    l.no,
                    l.indent + 1,
                    "expected list markers at column "@ + crate::text::decimal(indent + 1),
                ),
            )
        } else if !marker(s) {
            Ok((items, ls, p))
        } else if depth > crate::MAX_DEPTH {
            Err((ErrorKind::DepthLimit, l.no, indent + 1, "nesting exceeds the maximum depth of 100"@))
        } else if sl == 1 || (sl == 2 && l.rest[1] == ' ') {
            match bare_spec(ls, p + 1, indent, l.no, depth) {
                Err(d) => Err(d),
                Ok((n, ls2, p2)) => if advanced(ls, p, ls2, p2) && p < p2 {
                    items_spec(ls2, p2, indent, depth, items.push(n))
                } else {
                    Err(stuck())
                },
            }
        } else if l.rest.len() < 3 {
            Err(stuck())
        } else if l.rest[2] == ' ' {
            Err((ErrorKind::BadListMarker, l.no, indent + 3, "expected exactly one space after '-'"@))
        } else if stripped(l.rest.skip(2)).len() == 0 {
            match bare_spec(ls, p + 1, indent, l.no, depth) {
                Err(d) => Err(d),
                Ok((n, ls2, p2)) => if advanced(ls, p, ls2, p2) && p < p2 {
                    items_spec(ls2, p2, indent, depth, items.push(n))
                } else {
                    Err(stuck())
                },
            }
        } else {
            let tail = l.rest.skip(2);
            let e = stripped(tail).len();
            proof {
                assert(rewritten(ls, p)[p] == LineV { no: l.no, indent: l.indent + 2, rest: tail, raw: l.raw });
                assert(rest_len(rewritten(ls, p), p) < rest_len(ls, p));
            }
            if (e == 1 && tail[0] == '-') || (e >= 2 && tail[0] == '-' && tail[1] == ' ') {
                match items_spec(rewritten(ls, p), p, indent + 2, one_deeper(depth), Seq::empty()) {
                    Err(d) => Err(d),
                    Ok((sub, ls2, p2)) => if advanced(ls, p, ls2, p2) {
                        items_spec(ls2, p2, indent, depth, items.push(NodeV::List(sub)))
                    } else {
                        Err(stuck())
                    },
                }
            } else if tail.subrange(0, e as int) == "\"\"\""@ {
                match triple_spec(ls, p + 1, indent + 2) {
                    Err(d) => Err(d),
                    Ok((text, p2)) => if p < p2 <= ls.len() {
                        items_spec(ls, p2, indent, depth, items.push(block_scalar(text)))
                    } else {
                        Err(stuck())
                    },
                }
            } else if path_from(tail.take(e as int), 0, Seq::empty(), l.no, indent + 3, false) matches Ok(
                Some(_),
            ) {
                match pair_spec(rewritten(ls, p), p, indent + 2, false, one_deeper(depth)) {
                    Err(d) => Err(d),
                    Ok((path, v, ls2, p2)) => if advanced(ls, p, ls2, p2) && p < p2 {
                        match insert_spec(Seq::empty(), path, 0, v, l.no) {
                            Err(d) => Err(d),
                            Ok(m) => match cont_spec(ls2, p2, indent + 2, one_deeper(depth), m) {
                                Err(d) => Err(d),
                                Ok((m2, ls3, p3)) => if advanced(ls, p, ls3, p3) && p < p3 {
                                    items_spec(ls3, p3, indent, depth, items.push(NodeV::Mapping(m2)))
                                } else {
                                    Err(stuck())
                                },
                            },
                        }
                    } else {
                        Err(stuck())
                    },
                }
            } else {
                match token_spec(tail.take(e as int), l.no, indent + 3) {
                    Err(d) => Err(d),
                    Ok(n) => items_spec(ls, p + 1, indent, depth, items.push(n)),
                }
            }
        }
    }
}

/// Reading the pairs that continue a map list item, keys at `keycol`,
/// after the entries `m`.
pub open spec fn cont_spec(ls: Seq<LineV>, pos: int, keycol: nat, depth: nat, m: Seq<(Seq<char>, NodeV)>) -> Result<
    (Seq<(Seq<char>, NodeV)>, Seq<LineV>, int),
    ErrV,
>
    decreases ls.len() - pos, rest_len(ls, pos), 2int,
{
    if pos < 0 || pos >= ls.len() {
        Ok((m, ls, pos))
    } else {
        let l = ls[pos];
        if l.indent < keycol {
            Ok((m, ls, pos))
        } else if l.indent > keycol {
            Err(
                (
                    ErrorKind::MisalignedKey,
                    l.no,
                    l.indent + 1,
                    "item keys must align to column "@ + crate::text::decimal(keycol + 1),
                ),
            )
        } else if marker(stripped(l.rest)) {
            Ok((m, ls, pos))
        } else {
            match pair_spec(ls, pos, keycol, false, depth) {
                Err(d) => Err(d),
                Ok((path, v, ls2, p2)) => if advanced(ls, pos, ls2, p2) && pos < p2 {
                    match insert_spec(m, path, 0, v, l.no) {
                        Err(d) => Err(d),
                        Ok(m2) => cont_spec(ls2, p2, keycol, depth, m2),
                    }
                } else {
                    Err(stuck())
                },
            }
        }
    }
}

/// Reading the item of a bare `-` marker on line `line` (markers at column
/// `indent`): an indented map or list from line `pos` on.
pub open spec fn bare_spec(ls: Seq<LineV>, pos: int, indent: nat, line: nat, depth: nat) -> Result<
    (NodeV, Seq<LineV>, int),
    ErrV,
>
    decreases ls.len() - pos, rest_len(ls, pos), 4int,
{
    let p = skip_blank(ls, pos);
    if p < pos || p < 0 || p > ls.len() {
        Err(stuck())
    } else if p == ls.len() || ls[p].indent <= indent {
        Err(missing_value_err(line, indent))
    } else if ls[p].indent != indent + 2 {
        Err(
            (
                ErrorKind::BadIndent,
                ls[p].no,
                ls[p].indent + 1,
                "item content must be indented to column "@ + crate::text::decimal(indent + 3),
            ),
        )
    } else if marker(stripped(ls[p].rest)) {
        match items_spec(ls, p, indent + 2, one_deeper(depth), Seq::empty()) {
            Err(d) => Err(d),
            Ok((items, ls2, p2)) => Ok((NodeV::List(items), ls2, p2)),
        }
    } else {
        match pairs_spec(ls, p, indent + 2, false, one_deeper(depth), Seq::empty()) {
            Err(d) => Err(d),
            Ok((m, ls2, p2)) => Ok((NodeV::Mapping(m), ls2, p2)),
        }
    }
}

/// What a document reads as: the map of its root pairs, or the first
/// error met.
pub open spec fn document_spec(text: Seq<char>) -> Result<NodeV, ErrV> {
    match pairs_spec(text_lines(text), 0, 0, true, 1, Seq::empty()) {
        Err(d) => Err(d),
        Ok((m, _, _)) => Ok(NodeV::Mapping(m)),
    }
}

/// One source line, split into indent and content.
struct Line {
    /// 1-based source line number.
    no: usize,
    /// Number of leading spaces.
    indent: usize,
    /// Content after the indent, verbatim.
    rest: Vec<char>,
    /// The full source line (blocks need the leading spaces).
    raw: Vec<char>,
}

/// Bounds that keep every column computation within `usize`.
spec fn line_wf(l: Line) -> bool {
    &&& 1 <= l.no <= text_limit()
    &&& l.indent + l.rest@.len() <= text_limit()
    &&& l.raw@.len() <= text_limit()
    &&& l.indent <= l.raw@.len()
    &&& l.rest@ == l.raw@.skip(l.indent as int)
}

impl Line {
    /// The line as the reader sees it.
    spec fn view_line(&self) -> LineV {
        LineV { no: self.no as nat, indent: self.indent as nat, rest: self.rest@, raw: self.raw@ }
    }

    /// End of the comment-stripped, right-trimmed content.
    fn stripped_end(&self) -> (r: usize)
        ensures
            r <= self.rest@.len(),
            self.rest@.take(r as int) == stripped(self.rest@),
    {
        stripped_len(&self.rest)
    }

    /// True when this line starts a list item (`-` or `- ...`).
    fn is_marker(&self) -> (b: bool)
        ensures
            b == marker(stripped(self.rest@)),
    {
        let n = self.stripped_end();
        assert(stripped(self.rest@).len() == n);
        if n >= 1 {
            assert(stripped(self.rest@)[0] == self.rest@[0]);
        }
        if n >= 2 {
            assert(stripped(self.rest@)[1] == self.rest@[1]);
        }
        (n == 1 && self.rest[0] == '-') || (n >= 2 && self.rest[0] == '-' && self.rest[1] == ' ')
    }
}

/// A stripped line that is a list marker: `-` alone or `- ` and more.
pub open spec fn marker(s: Seq<char>) -> bool {
    (s.len() == 1 && s[0] == '-') || (s.len() >= 2 && s[0] == '-' && s[1] == ' ')
}

/// The views of lines.
spec fn lines_v(ls: Seq<Line>) -> Seq<LineV> {
    Seq::new(ls.len(), |i: int| ls[i].view_line())
}

/// The views of nodes.
spec fn nodes_view(x: Seq<Node>) -> Seq<NodeV> {
    Seq::new(x.len(), |i: int| x[i]@)
}

/// The lines of a document and the index of the next line to read.
struct Parser {
    lines: Vec<Line>,
    /// Index of the next significant (non-blank, non-comment) line.
    pos: usize,
}

/// A copy of `v[lo..]`.
pub(crate) fn chars_from(v: &Vec<char>, lo: usize) -> (r: Vec<char>)
    requires
        lo <= v@.len(),
    ensures
        r@ == v@.skip(lo as int),
{
    let mut r: Vec<char> = Vec::new();
    extend_range(&mut r, v, lo, v.len());
    assert(v@.subrange(lo as int, v@.len() as int) =~= v@.skip(lo as int));
    r
}

/// Number of leading spaces of `v`.
pub(crate) fn count_lead_spaces(v: &Vec<char>) -> (n: usize)
    ensures
        n == lead_spaces(v@),
        n <= v@.len(),
{
    let mut n: usize = 0;
    assert(v@.skip(0) =~= v@);
    while n < v.len() && v[n] == ' '
        invariant
            n <= v@.len(),
            lead_spaces(v@) == n + lead_spaces(v@.skip(n as int)),
        decreases v.len() - n,
    {
        proof {
            assert(v@.skip(n as int).drop_first() =~= v@.skip(n + 1));
        }
        n += 1;
    }
    n
}

impl Parser {
    spec fn wf(&self) -> bool {
        &&& self.pos <= self.lines@.len() <= text_limit()
        &&& forall|i: int| 0 <= i < self.lines@.len() ==> #[trigger] line_wf(self.lines@[i])
    }

    /// The lines as the reader sees them.
    spec fn ls(&self) -> Seq<LineV> {
        lines_v(self.lines@)
    }

    /// Length of the unread part of the current line, for termination.
    spec fn rest_at(&self) -> int {
        if self.pos < self.lines@.len() {
            self.lines@[self.pos as int].rest@.len() as int
        } else {
            0
        }
    }

    /// Splits `text` into lines; a trailing newline leaves no empty last
    /// line.
    fn new(text: &str) -> (p: Parser)
        requires
            text@.len() <= text_limit(),
        ensures
            p.wf(),
            p.pos == 0,
            p.ls() == text_lines(text@),
            p.lines@.len() == doc_lines(text@).len(),
            forall|i: int|
                0 <= i < p.lines@.len() ==> {
                    let l = #[trigger] p.lines@[i];
                    &&& l.raw@ == doc_lines(text@)[i]
                    &&& l.indent == lead_spaces(l.raw@)
                    &&& l.rest@ == l.raw@.skip(l.indent as int)
                },
    {
        let v = crate::text::chars_of(text);
        let n = v.len();
        let mut lines: Vec<Line> = Vec::new();
        let mut start: usize = 0;
        let ghost mut raws: Seq<Seq<char>> = Seq::empty();
        assert(v@.subrange(0, n as int) =~= v@);
        assert(raws + pieces(v@) =~= pieces(v@));
        loop
            invariant
                start <= n == v@.len() <= text_limit(),
                v@ == text@,
                pieces(v@) == raws + pieces(v@.subrange(start as int, n as int)),
                lines@.len() == raws.len(),
                lines@.len() <= start,
                forall|i: int|
                    0 <= i < lines@.len() ==> {
                        let l = #[trigger] lines@[i];
                        &&& l.raw@ == raws[i]
                        &&& l.indent == lead_spaces(l.raw@)
                        &&& l.rest@ == l.raw@.skip(l.indent as int)
                        &&& l.no == i + 1
                        &&& line_wf(l)
                    },
            decreases n - start,
        {
            let k = crate::grammar::find_either(&v, start, n, '\n', '\n');
            let ghost t = v@.subrange(start as int, n as int);
            let mut raw: Vec<char> = Vec::new();
            extend_range(&mut raw, &v, start, k);
            let indent = count_lead_spaces(&raw);
            let rest = chars_from(&raw, indent);
            let line = Line { no: lines.len() + 1, indent, rest, raw };
            proof {
                lemma_index_of_either_bounds(t, '\n', '\n');
                assert(t.take(k - start) =~= v@.subrange(start as int, k as int));
            }
            if k >= n {
                // the final piece; it is a line unless it is empty
                proof {
                    assert(pieces(t) == seq![t]);
                    assert(pieces(v@) =~= raws.push(t));
                }
                if k > start {
                    lines.push(line);
                    proof {
                        raws = raws.push(t);
                        assert(doc_lines(v@) == raws);
                    }
                } else {
                    proof {
                        assert(doc_lines(v@) =~= raws);
                    }
                }
                let p = Parser { lines, pos: 0 };
                proof {
                    assert(p.ls() =~= text_lines(text@));
                }
                return p;
            }
            proof {
                assert(t.skip(k - start + 1) =~= v@.subrange(k + 1, n as int));
                assert(pieces(v@) =~= raws.push(v@.subrange(start as int, k as int)) + pieces(
                    v@.subrange(k + 1, n as int),
                ));
                raws = raws.push(v@.subrange(start as int, k as int));
            }
            lines.push(line);
            start = k + 1;
        }
    }

    /// Advances `pos` past blank and comment-only lines.
    fn skip_insignificant(&mut self)
        requires
            old(self).wf(),
        ensures
            final(self).wf(),
            final(self).lines@ == old(self).lines@,
            old(self).pos <= final(self).pos,
            forall|j: int|
                old(self).pos <= j < final(self).pos ==> stripped(
                    (#[trigger] final(self).lines@[j]).rest@,
                ).len() == 0,
            final(self).pos < final(self).lines@.len() ==> stripped(
                final(self).lines@[final(self).pos as int].rest@,
            ).len() > 0,
            final(self).pos == skip_blank(old(self).ls(), old(self).pos as int),
    {
        while self.pos < self.lines.len() && self.lines[self.pos].stripped_end() == 0
            invariant
                self.wf(),
                self.lines@ == old(self).lines@,
                old(self).pos <= self.pos,
                skip_blank(self.ls(), old(self).pos as int) == skip_blank(self.ls(), self.pos as int),
                forall|j: int|
                    old(self).pos <= j < self.pos ==> stripped((#[trigger] self.lines@[j]).rest@).len()
                        == 0,
            decreases self.lines@.len() - self.pos,
        {
            self.pos += 1;
        }
    }
}

/// `prefix` followed by the decimal spelling of `n`.
fn message_with_number(prefix: &str, n: usize) -> (r: Vec<char>)
    ensures
        r@ == prefix@ + crate::text::decimal(n as nat),
{
    let mut r: Vec<char> = Vec::new();
    extend_str(&mut r, prefix);
    let d = crate::text::usize_to_chars(n);
    extend(&mut r, &d);
    r
}

/// The error for a key with neither a value nor an indented subtree.
fn missing_value(line_no: usize, col: usize) -> (e: Error)
    requires
        col < usize::MAX,
    ensures
        e.kind == ErrorKind::MissingValue,
        error_is(e, missing_value_err(line_no as nat, col as nat)),
{
    Error::new(ErrorKind::MissingValue, line_no, col + 1, "key has no value and no indented subtree")
}

/// The parser state moved forward: still well formed, the same number of
/// lines, the position not behind, and the current line not longer while
/// the position has not moved.
spec fn progressed(a: Parser, b: Parser) -> bool {
    &&& b.wf()
    &&& b.lines@.len() == a.lines@.len()
    &&& a.pos <= b.pos
    &&& b.pos == a.pos ==> b.rest_at() <= a.rest_at()
}

/// Well-formed nodes within a depth budget, none of them past the limit.
spec fn nodes_ok(items: Seq<Node>, budget: int) -> bool {
    &&& items.len() > 0 ==> budget >= 0
    &&& forall|i: int| 0 <= i < items.len() ==> wf_node(#[trigger] items[i]@) && depth_ok(items[i]@, budget)
}

/// A node list is well formed and within its budget when its items are
/// within one level less.
proof fn lemma_list_ok(items: Seq<Node>, budget: int)
    requires
        nodes_ok(items, budget - 1),
    ensures
        wf_node(NodeV::List(Seq::new(items.len(), |i: int| items[i]@))),
        depth_ok(NodeV::List(Seq::new(items.len(), |i: int| items[i]@)), budget),
{
    let l = Seq::new(items.len(), |i: int| items[i]@);
    assert forall|i: int| 0 <= i < l.len() implies wf_node(#[trigger] l[i]) && depth_ok(l[i], budget - 1) by {
        assert(l[i] == items[i]@);
    }
}

/// A node within a budget exhausted or not stays within a budget one
/// level smaller when the depth counter could not grow.
proof fn lemma_saturated(n: NodeV, depth: usize, deeper: usize, base: int)
    requires
        deeper == if depth < usize::MAX { depth + 1 } else { depth as int },
        depth_ok(n, base - deeper),
        depth >= 1,
        base <= 101,
    ensures
        depth_ok(n, base - 1 - depth),
{
    if depth == usize::MAX {
        crate::value::lemma_depth_exhausted(n, base - deeper, base - 1 - depth);
    }
}

impl Parser {
    /// Parses a whole document: the pairs of the root map.
    fn parse_document(&mut self) -> (r: Result<Node, Error>)
        requires
            old(self).wf(),
        ensures
            r matches Ok(n) ==> n@ is Mapping && wf_node(n@) && depth_ok(n@, crate::MAX_DEPTH as int),
            (forall|j: int|
                old(self).pos <= j < old(self).lines@.len() ==> stripped(
                    (#[trigger] old(self).lines@[j]).rest@,
                ).len() == 0) ==> (r matches Ok(n) && n@ == NodeV::Mapping(Seq::empty())),
            match pairs_spec(old(self).ls(), old(self).pos as int, 0, true, 1, Seq::empty()) {
                Ok((m, _, _)) => r matches Ok(n) && n@ == NodeV::Mapping(m),
                Err(d) => r matches Err(e) && error_is(e, d),
            },
    {
        let map = self.parse_pairs(0, true, 1)?;
        assert(map@.len() == 0 ==> map@ =~= Seq::<(Seq<char>, NodeV)>::empty());
        Ok(Node::Mapping(map))
    }

    /// Parses consecutive `path: value` pairs whose keys start at column
    /// `indent` (0-based).
    fn parse_pairs(&mut self, indent: usize, root: bool, depth: usize) -> (r: Result<Mapping, Error>)
        requires
            old(self).wf(),
            depth >= 1,
            indent <= text_limit(),
        ensures
            progressed(*old(self), *final(self)),
            r matches Ok(m) ==> wf_node(NodeV::Mapping(m@)) && depth_ok(
                NodeV::Mapping(m@),
                crate::MAX_DEPTH + 1 - depth,
            ),
            (forall|j: int|
                old(self).pos <= j < old(self).lines@.len() ==> stripped(
                    (#[trigger] old(self).lines@[j]).rest@,
                ).len() == 0) ==> (r matches Ok(m) && m@.len() == 0),
            match pairs_spec(old(self).ls(), old(self).pos as int, indent as nat, root, depth as nat, Seq::empty()) {
                Ok((m, ls2, p2)) => r matches Ok(x) && x@ == m && final(self).ls() == ls2 && final(self).pos == p2,
                Err(d) => r matches Err(e) && error_is(e, d),
            },
        decreases old(self).lines@.len() - old(self).pos, old(self).rest_at(), 3int,
    {
        let mut map = Mapping::new();
        let ghost start = *self;
        proof {
            lemma_wf_map(map@);
            crate::value::lemma_depth_map_intro(map@, crate::MAX_DEPTH + 1 - depth);
        }
        loop
            invariant
                old(self).wf(),
                start == *old(self),
                progressed(*old(self), *self),
                indent <= text_limit(),
                depth >= 1,
                wf_node(NodeV::Mapping(map@)),
                depth_ok(NodeV::Mapping(map@), crate::MAX_DEPTH + 1 - depth),
                (forall|j: int|
                    old(self).pos <= j < old(self).lines@.len() ==> stripped(
                        (#[trigger] old(self).lines@[j]).rest@,
                    ).len() == 0) ==> map@.len() == 0 && self.lines@ == old(self).lines@,
                pairs_spec(old(self).ls(), old(self).pos as int, indent as nat, root, depth as nat, Seq::empty())
                    == pairs_spec(self.ls(), self.pos as int, indent as nat, root, depth as nat, map@),
            ensures
                progressed(*old(self), *self),
                wf_node(NodeV::Mapping(map@)),
                depth_ok(NodeV::Mapping(map@), crate::MAX_DEPTH + 1 - depth),
                (forall|j: int|
                    old(self).pos <= j < old(self).lines@.len() ==> stripped(
                        (#[trigger] old(self).lines@[j]).rest@,
                    ).len() == 0) ==> map@.len() == 0,
                pairs_spec(old(self).ls(), old(self).pos as int, indent as nat, root, depth as nat, Seq::empty())
                    == Ok::<(Seq<(Seq<char>, NodeV)>, Seq<LineV>, int), ErrV>((map@, self.ls(), self.pos as int)),
            decreases self.lines@.len() - self.pos,
        {
            let ghost ls = self.ls();
            let ghost pb = self.pos as int;
            self.skip_insignificant();
            if self.pos >= self.lines.len() {
                break;
            }
            let l_indent = self.lines[self.pos].indent;
            let l_no = self.lines[self.pos].no;
            assert(line_wf(self.lines@[self.pos as int]));
            if l_indent < indent {
                break;
            }
            if l_indent > indent {
                let msg = message_with_number("expected keys at column ", indent + 1);
                return Err(Error::from_chars(ErrorKind::BadIndent, l_no, l_indent + 1, &msg));
            }
            if self.lines[self.pos].is_marker() {
                return Err(Error::new(ErrorKind::BadListMarker, l_no, l_indent + 1, "list item where a mapping pair was expected"));
            }
            let (path, value) = self.parse_pair(indent, root, depth)?;
            let ln = last_line_no(&self.lines, self.pos);
            map = insert_path_at(map, &path, 0, value, ln, Ghost(crate::MAX_DEPTH + 1 - depth))?;
        }
        Ok(map)
    }

    /// Parses one `path: value` pair starting at the current line, whose
    /// key starts at column `keycol`. Consumes the key line; block content
    /// and subtrees are read from the following lines.
    #[verifier::rlimit(60)]
    fn parse_pair(&mut self, keycol: usize, root: bool, depth: usize) -> (r: Result<(Vec<Vec<char>>, Node), Error>)
        requires
            old(self).wf(),
            old(self).pos < old(self).lines@.len(),
            keycol == old(self).lines@[old(self).pos as int].indent,
            depth >= 1,
        ensures
            progressed(*old(self), *final(self)),
            r is Ok ==> final(self).pos > old(self).pos,
            r matches Ok((path, v)) ==> {
                &&& path@.len() >= 1
                &&& forall|j: int| 0 <= j < path@.len() ==> #[trigger] path@[j]@.len() > 0
                &&& depth + path@.len() - 1 <= crate::MAX_DEPTH
                &&& wf_node(v@)
                &&& depth_ok(v@, crate::MAX_DEPTH + 1 - depth - path@.len())
            },
            match pair_spec(old(self).ls(), old(self).pos as int, keycol as nat, root, depth as nat) {
                Ok((path, v, ls2, p2)) => r matches Ok((x, y)) && views_of(x@) == path && y@ == v && final(self).ls()
                    == ls2 && final(self).pos == p2,
                Err(d) => r matches Err(e) && error_is(e, d),
            },
        decreases old(self).lines@.len() - old(self).pos, old(self).rest_at(), 1int,
    {
        assert(line_wf(self.lines@[self.pos as int]));
        let ghost ls = self.ls();
        let ghost pos0 = self.pos as int;
        assert(ls[pos0] == self.lines@[pos0].view_line());
        let line_no = self.lines[self.pos].no;
        let sl = self.lines[self.pos].stripped_end();
        let mut stripped_text: Vec<char> = Vec::new();
        extend_range(&mut stripped_text, &self.lines[self.pos].rest, 0, sl);
        assert(stripped_text@ =~= stripped(ls[pos0].rest));
        assert(stripped_text@.take(sl as int) =~= stripped_text@);
        crate::lexer::check_tab(&self.lines[self.pos].rest, line_no, keycol + 1)?;
        self.pos += 1;
        let found = scan_path(&stripped_text, sl, line_no, keycol + 1, root)?;
        let (segs, after) = match found {
            None => {
                return Err(Error::new(ErrorKind::UnexpectedCharacter, line_no, keycol + 1, "expected `key:`"));
            },
            Some(x) => x,
        };
        assert(views_of(segs@)[0] == segs@[0]@);
        if depth > crate::MAX_DEPTH || segs.len() - 1 > crate::MAX_DEPTH - depth {
            return Err(Error::new(ErrorKind::DepthLimit, line_no, keycol + 1, "nesting exceeds the maximum depth of 100"));
        }
        proof {
            assert forall|j: int| 0 <= j < segs@.len() implies #[trigger] segs@[j]@.len() > 0 by {
                assert(views_of(segs@)[j] == segs@[j]@);
            }
        }
        let value_col = keycol + 1 + after;
        let value = if after >= sl {
            self.skip_insignificant();
            if self.pos >= self.lines.len() {
                return Err(missing_value(line_no, keycol));
            }
            assert(line_wf(self.lines@[self.pos as int]));
            let l_indent = self.lines[self.pos].indent;
            let l_no = self.lines[self.pos].no;
            if l_indent <= keycol {
                return Err(missing_value(line_no, keycol));
            }
            let child = l_indent;
            if child != keycol + 2 {
                let msg = message_with_number("subtree must be indented to column ", keycol + 3);
                return Err(Error::from_chars(ErrorKind::BadIndent, l_no, child + 1, &msg));
            }
            let sub = depth + segs.len();
            if self.lines[self.pos].is_marker() {
                let items = self.parse_items(child, sub)?;
                proof {
                    lemma_list_ok(items@, crate::MAX_DEPTH + 1 - sub);
                }
                Node::list(items)
            } else {
                Node::Mapping(self.parse_pairs(child, false, sub)?)
            }
        } else if stripped_text[after] == ' ' {
            let v_lo = after + 1;
            if v_lo < sl && stripped_text[v_lo] == ' ' {
                return Err(Error::new(ErrorKind::UnexpectedCharacter, line_no, value_col + 1, "expected exactly one space after ':'"));
            }
            if crate::grammar::range_is(&stripped_text, v_lo, sl, "\"\"\"") {
                Node::Scalar(self.read_triple(keycol)?)
            } else if sl - v_lo >= 3 && stripped_text[v_lo] == '"' && stripped_text[v_lo + 1] == '"' && stripped_text[v_lo + 2] == '"' {
                return Err(Error::new(ErrorKind::UnexpectedCharacter, line_no, value_col + 1, "triple-quoted string must start on its own line"));
            } else {
                let n = scalar_from_token(&stripped_text, v_lo, sl, line_no, value_col + 1)?;
                proof {
                    lemma_token_ok(stripped_text@.subrange(v_lo as int, sl as int), line_no as nat, (value_col + 1) as nat, crate::MAX_DEPTH + 1 - depth - segs@.len());
                }
                n
            }
        } else {
            return Err(Error::new(ErrorKind::UnexpectedCharacter, line_no, value_col, "expected exactly one space after ':'"));
        };
        Ok((segs, value))
    }
}

/// What a value token denotes is well formed, and has no keys.
proof fn lemma_token_ok(tok: Seq<char>, line: nat, col: nat, budget: int)
    ensures
        token_spec(tok, line, col) matches Ok(x) ==> wf_node(x) && depth_ok(x, budget),
{
    match token_spec(tok, line, col) {
        Ok(x) => {
            if x is Mapping {
                lemma_wf_map(x->Mapping_0);
                crate::value::lemma_depth_map_intro(x->Mapping_0, budget);
            }
        },
        Err(_) => {},
    }
}

/// The number of the line before `pos` (1 when there is none).
fn last_line_no(lines: &Vec<Line>, pos: usize) -> (n: usize)
    requires
        forall|i: int| 0 <= i < lines@.len() ==> #[trigger] line_wf(lines@[i]),
    ensures
        n == last_no(lines_v(lines@), pos as int),
{
    let k = if pos == 0 { 0 } else { pos - 1 };
    if k < lines.len() {
        lines[k].no
    } else {
        1
    }
}

/// Whether every character of `v` is whitespace (`trim()` leaves nothing).
pub(crate) fn all_ws(v: &Vec<char>) -> (r: bool)
    ensures
        r == all_ws_spec(v@),
{
    let mut i: usize = 0;
    while i < v.len()
        invariant
            i <= v.len(),
            forall|j: int| 0 <= j < i ==> crate::lexer::is_ws(#[trigger] v@[j]),
        decreases v.len() - i,
    {
        if !crate::lexer::is_ws_char(v[i]) {
            return false;
        }
        i += 1;
    }
    true
}

/// Length of `v` without trailing whitespace.
fn trim_end_plain(v: &Vec<char>) -> (n: usize)
    ensures
        n <= v@.len(),
        n == crate::lexer::trim_end_len(v@, v@.len() as int),
{
    let mut n = v.len();
    while n > 0 && crate::lexer::is_ws_char(v[n - 1])
        invariant
            n <= v@.len(),
            crate::lexer::trim_end_len(v@, v@.len() as int) == crate::lexer::trim_end_len(v@, n as int),
        decreases n,
    {
        n -= 1;
    }
    n
}

/// Whether `v` with surrounding whitespace trimmed is exactly `"""`.
fn trims_to_triple(v: &Vec<char>) -> (r: bool)
    ensures
        r == trims_to_triple_spec(v@),
{
    let mut a: usize = 0;
    assert(v@.skip(0) =~= v@);
    while a < v.len() && crate::lexer::is_ws_char(v[a])
        invariant
            a <= v@.len(),
            lead_ws(v@) == a + lead_ws(v@.skip(a as int)),
        decreases v.len() - a,
    {
        proof {
            assert(v@.skip(a as int).drop_first() =~= v@.skip(a + 1));
        }
        a += 1;
    }
    let b = trim_end_plain(v);
    b >= a && b - a == 3 && v[a] == '"' && v[a + 1] == '"' && v[a + 2] == '"'
}

/// Number of leading spaces of `v[0..n]`.
fn lead_spaces_upto(v: &Vec<char>, n: usize) -> (k: usize)
    requires
        n <= v@.len(),
    ensures
        k <= n,
        k == lead_spaces(v@.take(n as int)),
{
    let mut k: usize = 0;
    assert(v@.take(n as int).skip(0) =~= v@.take(n as int));
    while k < n && v[k] == ' '
        invariant
            k <= n <= v@.len(),
            lead_spaces(v@.take(n as int)) == k + lead_spaces(v@.take(n as int).skip(k as int)),
        decreases n - k,
    {
        proof {
            assert(v@.take(n as int).skip(k as int).drop_first() =~= v@.take(n as int).skip(k + 1));
        }
        k += 1;
    }
    k
}

/// One content line of a `"""` block: its text (the raw line, or the part
/// before an inline closer), line number and indent.
struct BlockLine {
    text: Vec<char>,
    no: usize,
    indent: usize,
}

/// The views of block content lines.
spec fn block_views(c: Seq<BlockLine>) -> Seq<(Seq<char>, nat, nat)> {
    Seq::new(c.len(), |i: int| (c[i].text@, c[i].no as nat, c[i].indent as nat))
}

impl Parser {
    /// Reads a `"""` block whose opening line has been consumed. Content is
    /// every following line indented past `keycol`; blank lines are content
    /// too. The common indent of non-blank lines is stripped, escapes are
    /// decoded line by line. A `"""` alone at column `keycol` closes the
    /// block and keeps a final newline; a `"""` ending the last content line
    /// closes it without one. A missing closer is an error.
    fn read_triple(&mut self, keycol: usize) -> (r: Result<Scalar, Error>)
        requires
            old(self).wf(),
            keycol <= text_limit(),
        ensures
            final(self).wf(),
            final(self).lines@ == old(self).lines@,
            old(self).pos <= final(self).pos,
            r is Ok ==> old(self).pos < final(self).pos,
            r matches Ok(sc) ==> sc.shape == Shape::Str,
            match triple_spec(old(self).ls(), old(self).pos as int, keycol as nat) {
                Ok((t, p2)) => r matches Ok(sc) && NodeV::Scalar(sc@) == block_scalar(t) && final(self).pos == p2,
                Err(d) => r matches Err(e) && error_is(e, d),
            },
    {
        let ghost ls = self.ls();
        let ghost start = self.pos as int;
        let mut content: Vec<BlockLine> = Vec::new();
        assert(block_views(content@) =~= Seq::<(Seq<char>, nat, nat)>::empty());
        let mut trailing_nl = false;
        let mut i = self.pos;
        let mut end: usize = self.pos;
        loop
            invariant_except_break
                self.wf(),
                self.lines@ == old(self).lines@,
                self.pos == old(self).pos,
                old(self).pos <= i <= self.lines@.len(),
                keycol <= text_limit(),
                forall|j: int|
                    0 <= j < content@.len() ==> (#[trigger] content@[j]).text@.len() <= text_limit()
                        && content@[j].indent <= text_limit(),
                ls == self.ls(),
                start == old(self).pos,
                !trailing_nl,
                block_scan(ls, start, keycol as nat, Seq::empty()) == block_scan(
                    ls,
                    i as int,
                    keycol as nat,
                    block_views(content@),
                ),
            ensures
                self.wf(),
                self.lines@ == old(self).lines@,
                self.pos == old(self).pos,
                old(self).pos < end <= self.lines@.len(),
                keycol <= text_limit(),
                forall|j: int|
                    0 <= j < content@.len() ==> (#[trigger] content@[j]).text@.len() <= text_limit()
                        && content@[j].indent <= text_limit(),
                ls == self.ls(),
                block_scan(ls, start, keycol as nat, Seq::empty()) == Ok::<
                    (Seq<(Seq<char>, nat, nat)>, bool, int),
                    ErrV,
                >((block_views(content@), trailing_nl, end as int)),
            decreases self.lines@.len() - i,
        {
            if i >= self.lines.len() {
                let n = self.lines.len();
                let no = if n > 0 { self.lines[n - 1].no } else { 0 };
                return Err(Error::new(ErrorKind::Unterminated, no, 1, "unterminated triple-quoted string (missing `\"\"\"`)"));
            }
            assert(line_wf(self.lines@[i as int]));
            assert(ls[i as int] == self.lines@[i as int].view_line());
            let l_no = self.lines[i].no;
            let l_indent = self.lines[i].indent;
            if all_ws(&self.lines[i].rest) {
                let ghost before = block_views(content@);
                content.push(BlockLine { text: Vec::new(), no: l_no, indent: l_indent });
                proof {
                    assert(block_views(content@) =~= before.push((Seq::<char>::empty(), l_no as nat, l_indent as nat)));
                }
                i += 1;
                continue;
            }
            if l_indent == keycol && trims_to_triple(&self.lines[i].rest) {
                end = i + 1;
                trailing_nl = true;
                break;
            }
            if l_indent < keycol {
                return Err(Error::new(ErrorKind::Unterminated, l_no, l_indent + 1, "unterminated triple-quoted string (missing `\"\"\"`)"));
            }
            let te = trim_end_plain(&self.lines[i].rest);
            if te >= 3 && self.lines[i].rest[te - 3] == '"' && self.lines[i].rest[te - 2] == '"'
                && self.lines[i].rest[te - 1] == '"' {
                // The closer is the last `"""` of the raw line: the rest
                // is the raw line past its indent.
                let closer = l_indent + te - 3;
                let mut text: Vec<char> = Vec::new();
                extend_range(&mut text, &self.lines[i].raw, 0, closer);
                let ghost before = block_views(content@);
                content.push(BlockLine { text, no: l_no, indent: l_indent });
                proof {
                    assert(self.lines@[i as int].raw@.subrange(0, closer as int) =~= self.lines@[i as int].raw@.take(closer as int));
                    assert(block_views(content@) =~= before.push((ls[i as int].raw.take(closer as int), l_no as nat, l_indent as nat)));
                    assert(!all_ws_spec(ls[i as int].rest));
                    assert(!(ls[i as int].indent == keycol && trims_to_triple_spec(ls[i as int].rest)));
                    assert(te == crate::lexer::trim_end_len(ls[i as int].rest, ls[i as int].rest.len() as int));
                    assert(block_scan(ls, i as int, keycol as nat, before) == Ok::<
                        (Seq<(Seq<char>, nat, nat)>, bool, int),
                        ErrV,
                    >((block_views(content@), false, i + 1)));
                }
                end = i + 1;
                break;
            }
            let mut text: Vec<char> = Vec::new();
            extend(&mut text, &self.lines[i].raw);
            let ghost before = block_views(content@);
            content.push(BlockLine { text, no: l_no, indent: l_indent });
            proof {
                assert(block_views(content@) =~= before.push((ls[i as int].raw, l_no as nat, l_indent as nat)));
            }
            i += 1;
        }
        let ghost cv = block_views(content@);
        // the common indent of the non-blank content lines
        let mut common: usize = 0;
        let mut seen = false;
        let mut k: usize = 0;
        while k < content.len()
            invariant
                k <= content@.len(),
                common <= text_limit(),
                cv == block_views(content@),
                common_indent(cv, 0, false, 0) == common_indent(cv, k as int, seen, common as nat),
                self.wf(),
                self.lines@ == old(self).lines@,
                self.pos == old(self).pos,
                old(self).pos < end <= self.lines@.len(),
                forall|j: int|
                    0 <= j < content@.len() ==> (#[trigger] content@[j]).text@.len() <= text_limit()
                        && content@[j].indent <= text_limit(),
            decreases content.len() - k,
        {
            if content[k].text.len() > 0 {
                let lead = lead_spaces_upto(&content[k].text, content[k].text.len());
                proof {
                    assert(content@[k as int].text@.take(content@[k as int].text@.len() as int) =~= content@[k as int].text@);
                }
                if !seen || lead < common {
                    common = lead;
                }
                seen = true;
            }
            k += 1;
        }
        let mut text: Vec<char> = Vec::new();
        let mut k: usize = 0;
        let ghost cm = common_indent(cv, 0, false, 0);
        assert(text@ =~= Seq::<char>::empty());
        while k < content.len()
            invariant
                k <= content@.len(),
                common <= text_limit(),
                cv == block_views(content@),
                cm == common as nat,
                cm == common_indent(cv, 0, false, 0),
                ls == old(self).ls(),
                start == old(self).pos,
                block_scan(ls, start, keycol as nat, Seq::empty()) == Ok::<
                    (Seq<(Seq<char>, nat, nat)>, bool, int),
                    ErrV,
                >((cv, trailing_nl, end as int)),
                block_text(cv, 0, cm, Seq::empty()) == block_text(cv, k as int, cm, text@),
                self.wf(),
                self.lines@ == old(self).lines@,
                self.pos == old(self).pos,
                old(self).pos < end <= self.lines@.len(),
                forall|j: int|
                    0 <= j < content@.len() ==> (#[trigger] content@[j]).text@.len() <= text_limit()
                        && content@[j].indent <= text_limit(),
            decreases content.len() - k,
        {
            let ghost acc = text@;
            if k > 0 {
                text.push('\n');
            }
            let line = &content[k];
            if line.text.len() > 0 {
                let lo = if common < line.text.len() { common } else { line.text.len() };
                proof {
                    crate::text::lemma_bytes_len_bound(line.text@.subrange(lo as int, line.text@.len() as int));
                }
                match crate::lexer::scan_escapes(&line.text, lo, line.text.len(), line.no, line.indent + 1 + common) {
                    Ok(part) => {
                        extend(&mut text, &part);
                    },
                    Err(e) => {
                        proof {
                            let piece = line.text@.subrange(lo as int, line.text@.len() as int);
                            assert(cv[k as int] == (line.text@, line.no as nat, line.indent as nat));
                            assert(block_text(cv, k as int, cm, acc) == block_text(cv, 0, cm, Seq::empty()));
                            match crate::lexer::unescape(piece, 0) {
                                Err(f) => {
                                    assert(block_text(cv, k as int, cm, acc) == Err::<Seq<char>, ErrV>(
                                        crate::lexer::esc_error(piece, f, line.no as nat, (line.indent + 1 + cm) as nat),
                                    ));
                                },
                                Ok(_) => {},
                            }
                        }
                        return Err(e);
                    },
                }
            }
            k += 1;
        }
        if trailing_nl && content.len() > 0 {
            text.push('\n');
        }
        let mut raw: Vec<char> = Vec::new();
        raw.push('"');
        extend(&mut raw, &text);
        raw.push('"');
        self.pos = end;
        proof {
            assert(raw@ =~= seq!['"'] + text@ + seq!['"']);
        }
        Ok(Scalar { shape: Shape::Str, text: crate::text::string_of(&text), raw: crate::text::string_of(&raw) })
    }

    /// Parses consecutive list items whose `-` markers start at column
    /// `indent`.
    #[verifier::rlimit(60)]
    fn parse_items(&mut self, indent: usize, depth: usize) -> (r: Result<Vec<Node>, Error>)
        requires
            old(self).wf(),
            depth >= 1,
            indent <= text_limit(),
        ensures
            progressed(*old(self), *final(self)),
            r matches Ok(items) ==> nodes_ok(items@, crate::MAX_DEPTH - depth),
            match items_spec(old(self).ls(), old(self).pos as int, indent as nat, depth as nat, Seq::empty()) {
                Ok((items, ls2, p2)) => r matches Ok(x) && nodes_view(x@) == items && final(self).ls() == ls2
                    && final(self).pos == p2,
                Err(d) => r matches Err(e) && error_is(e, d),
            },
        decreases old(self).lines@.len() - old(self).pos, old(self).rest_at(), 2int,
    {
        let mut items: Vec<Node> = Vec::new();
        let deeper = depth.saturating_add(1);
        assert(nodes_view(items@) =~= Seq::<NodeV>::empty());
        loop
            invariant
                old(self).wf(),
                progressed(*old(self), *self),
                indent <= text_limit(),
                depth >= 1,
                deeper == if depth < usize::MAX { depth + 1 } else { depth as int },
                deeper == one_deeper(depth as nat),
                nodes_ok(items@, crate::MAX_DEPTH - depth),
                items_spec(old(self).ls(), old(self).pos as int, indent as nat, depth as nat, Seq::empty())
                    == items_spec(self.ls(), self.pos as int, indent as nat, depth as nat, nodes_view(items@)),
            ensures
                progressed(*old(self), *self),
                nodes_ok(items@, crate::MAX_DEPTH - depth),
                items_spec(old(self).ls(), old(self).pos as int, indent as nat, depth as nat, Seq::empty())
                    == Ok::<(Seq<NodeV>, Seq<LineV>, int), ErrV>((nodes_view(items@), self.ls(), self.pos as int)),
            decreases self.lines@.len() - self.pos, self.rest_at(),
        {
            let ghost ls = self.ls();
            let ghost pb = self.pos as int;
            let ghost iv = nodes_view(items@);
            self.skip_insignificant();
            if self.pos >= self.lines.len() {
                break;
            }
            let p = self.pos;
            assert(line_wf(self.lines@[p as int]));
            assert(ls[p as int] == self.lines@[p as int].view_line());
            let l_indent = self.lines[p].indent;
            let line_no = self.lines[p].no;
            if l_indent < indent {
                break;
            }
            if l_indent > indent {
                let msg = message_with_number("expected list markers at column ", indent + 1);
                return Err(Error::from_chars(ErrorKind::BadIndent, line_no, l_indent + 1, &msg));
            }
            let sl = self.lines[p].stripped_end();
            let dash = sl >= 1 && self.lines[p].rest[0] == '-';
            proof {
                let st = stripped(ls[p as int].rest);
                assert(st.len() == sl);
                if sl >= 1 {
                    assert(st[0] == ls[p as int].rest[0]);
                }
                if sl >= 2 {
                    assert(st[1] == ls[p as int].rest[1]);
                }
            }
            if !((sl == 1 && dash) || (sl >= 2 && dash && self.lines[p].rest[1] == ' ')) {
                break;
            }
            if depth > crate::MAX_DEPTH {
                return Err(Error::new(ErrorKind::DepthLimit, line_no, indent + 1, "nesting exceeds the maximum depth of 100"));
            }
            if sl == 1 || (sl == 2 && self.lines[p].rest[1] == ' ') {
                // bare marker: the item is an indented subtree below
                self.pos = p + 1;
                let item = self.parse_bare_item(indent, line_no, depth)?;
                items.push(item);
                proof {
                    assert(nodes_view(items@) =~= iv.push(item@));
                }
                continue;
            }
            // `- content`: exactly one space after the dash
            if self.lines[p].rest[2] == ' ' {
                return Err(Error::new(ErrorKind::BadListMarker, line_no, indent + 3, "expected exactly one space after '-'"));
            }
            let tail = chars_from(&self.lines[p].rest, 2);
            let e = stripped_len(&tail);
            proof {
                assert(tail@.subrange(0, e as int) =~= tail@.take(e as int));
                assert(stripped(tail@).len() == e);
                if e >= 1 {
                    assert(stripped(tail@)[0] == tail@[0]);
                }
            }
            if e == 0 {
                // `- ` with nothing but a comment behaves like `-`
                self.pos = p + 1;
                let item = self.parse_bare_item(indent, line_no, depth)?;
                items.push(item);
                proof {
                    assert(nodes_view(items@) =~= iv.push(item@));
                }
            } else if (e == 1 && tail[0] == '-') || (e >= 2 && tail[0] == '-' && tail[1] == ' ') {
                // compact nested list (`- - x`): the inner marker becomes
                // the line's content, two columns further right
                self.rewrite_current(tail);
                let sub = self.parse_items(indent + 2, deeper)?;
                proof {
                    lemma_list_ok(sub@, crate::MAX_DEPTH + 1 - deeper);
                    lemma_saturated(NodeV::List(Seq::new(sub@.len(), |i: int| sub@[i]@)), depth, deeper, crate::MAX_DEPTH + 1);
                }
                let n = Node::list(sub);
                items.push(n);
                proof {
                    assert(nodes_view(items@) =~= iv.push(n@));
                }
            } else if crate::grammar::range_is(&tail, 0, e, "\"\"\"") {
                // a `"""` block as a list item: content and closer sit two
                // columns past the marker
                self.pos = p + 1;
                let sc = self.read_triple(indent + 2)?;
                let n = Node::Scalar(sc);
                items.push(n);
                proof {
                    assert(nodes_view(items@) =~= iv.push(n@));
                }
            } else if is_pair_start(&tail, e, line_no, indent + 3) {
                // inline first pair of a mapping item: the pair becomes the
                // line's content at its real column; continuation pairs
                // align to it
                self.rewrite_current(tail);
                let keycol = indent + 2;
                let (path, value) = self.parse_pair(keycol, false, deeper)?;
                let ghost budget = crate::MAX_DEPTH + 1 - deeper;
                let empty = Mapping::new();
                proof {
                    lemma_wf_map(empty@);
                    crate::value::lemma_depth_map_intro(empty@, budget);
                }
                let map = insert_path_at(empty, &path, 0, value, line_no, Ghost(budget))?;
                let ghost m1 = map@;
                let map = self.parse_cont(keycol, deeper, map, Ghost(budget), Ghost(m1))?;
                proof {
                    lemma_saturated(NodeV::Mapping(map@), depth, deeper, crate::MAX_DEPTH + 1);
                }
                let n = Node::Mapping(map);
                items.push(n);
                proof {
                    assert(nodes_view(items@) =~= iv.push(n@));
                }
            } else {
                // a plain scalar item
                self.pos = p + 1;
                let n = scalar_from_token(&tail, 0, e, line_no, indent + 3)?;
                proof {
                    lemma_token_ok(tail@.subrange(0, e as int), line_no as nat, (indent + 3) as nat, crate::MAX_DEPTH - depth);
                }
                items.push(n);
                proof {
                    assert(nodes_view(items@) =~= iv.push(n@));
                }
            }
        }
        Ok(items)
    }

    /// Parses the pairs that continue a map list item, keys at `keycol`,
    /// into `map`.
    #[verifier::rlimit(60)]
    fn parse_cont(
        &mut self,
        keycol: usize,
        depth: usize,
        map: Mapping,
        Ghost(budget): Ghost<int>,
        Ghost(m0): Ghost<Seq<(Seq<char>, NodeV)>>,
    ) -> (r: Result<Mapping, Error>)
        requires
            m0 == map@,
            old(self).wf(),
            depth >= 1,
            keycol <= text_limit(),
            budget == crate::MAX_DEPTH + 1 - depth,
            wf_node(NodeV::Mapping(map@)),
            depth_ok(NodeV::Mapping(map@), budget),
        ensures
            progressed(*old(self), *final(self)),
            r matches Ok(m) ==> wf_node(NodeV::Mapping(m@)) && depth_ok(NodeV::Mapping(m@), budget),
            match cont_spec(old(self).ls(), old(self).pos as int, keycol as nat, depth as nat, m0) {
                Ok((m, ls2, p2)) => r matches Ok(x) && x@ == m && final(self).ls() == ls2 && final(self).pos == p2,
                Err(d) => r matches Err(e) && error_is(e, d),
            },
        decreases old(self).lines@.len() - old(self).pos, old(self).rest_at(), 2int,
    {
        let mut map = map;
        loop
            invariant
                old(self).wf(),
                progressed(*old(self), *self),
                keycol <= text_limit(),
                depth >= 1,
                budget == crate::MAX_DEPTH + 1 - depth,
                wf_node(NodeV::Mapping(map@)),
                depth_ok(NodeV::Mapping(map@), budget),
                cont_spec(old(self).ls(), old(self).pos as int, keycol as nat, depth as nat, m0) == cont_spec(
                    self.ls(),
                    self.pos as int,
                    keycol as nat,
                    depth as nat,
                    map@,
                ),
            ensures
                progressed(*old(self), *self),
                wf_node(NodeV::Mapping(map@)),
                depth_ok(NodeV::Mapping(map@), budget),
                cont_spec(old(self).ls(), old(self).pos as int, keycol as nat, depth as nat, m0) == Ok::<
                    (Seq<(Seq<char>, NodeV)>, Seq<LineV>, int),
                    ErrV,
                >((map@, self.ls(), self.pos as int)),
            decreases self.lines@.len() - self.pos,
        {
            if self.pos >= self.lines.len() {
                break;
            }
            let q = self.pos;
            assert(line_wf(self.lines@[q as int]));
            assert(self.ls()[q as int] == self.lines@[q as int].view_line());
            let c_indent = self.lines[q].indent;
            let c_no = self.lines[q].no;
            if c_indent < keycol {
                break;
            }
            if c_indent > keycol {
                let msg = message_with_number("item keys must align to column ", keycol + 1);
                proof {
                    let lsv = self.ls();
                    assert(0 <= q < lsv.len());
                    assert(lsv[q as int].indent > keycol);
                    assert(cont_spec(lsv, q as int, keycol as nat, depth as nat, map@) == Err::<
                        (Seq<(Seq<char>, NodeV)>, Seq<LineV>, int),
                        ErrV,
                    >(
                        (
                            ErrorKind::MisalignedKey,
                            c_no as nat,
                            (c_indent + 1) as nat,
                            "item keys must align to column "@ + crate::text::decimal((keycol + 1) as nat),
                        ),
                    ));
                }
                return Err(Error::from_chars(ErrorKind::MisalignedKey, c_no, c_indent + 1, &msg));
            }
            if self.lines[q].is_marker() {
                break;
            }
            let ghost lsv = self.ls();
            let ghost mv = map@;
            let (p2, v2) = match self.parse_pair(keycol, false, depth) {
                Ok(x) => x,
                Err(e) => {
                    proof {
                        match pair_spec(lsv, q as int, keycol as nat, false, depth as nat) {
                            Err(d) => {
                                assert(cont_spec(lsv, q as int, keycol as nat, depth as nat, mv) == Err::<
                                    (Seq<(Seq<char>, NodeV)>, Seq<LineV>, int),
                                    ErrV,
                                >(d));
                            },
                            Ok(_) => {},
                        }
                    }
                    return Err(e);
                },
            };
            map = match insert_path_at(map, &p2, 0, v2, c_no, Ghost(budget)) {
                Ok(m2) => m2,
                Err(e) => {
                    proof {
                        match insert_spec(mv, views_of(p2@), 0, v2@, c_no as nat) {
                            Err(d) => {
                                assert(cont_spec(lsv, q as int, keycol as nat, depth as nat, mv) == Err::<
                                    (Seq<(Seq<char>, NodeV)>, Seq<LineV>, int),
                                    ErrV,
                                >(d));
                            },
                            Ok(_) => {},
                        }
                    }
                    return Err(e);
                },
            };
        }
        Ok(map)
    }

    /// Replaces the content of the current line by `tail` (its content
    /// past a `- ` marker), moving its indent two columns right.
    fn rewrite_current(&mut self, tail: Vec<char>)
        requires
            old(self).wf(),
            old(self).pos < old(self).lines@.len(),
            old(self).lines@[old(self).pos as int].rest@.len() >= 3,
            tail@ == old(self).lines@[old(self).pos as int].rest@.skip(2),
        ensures
            final(self).wf(),
            final(self).pos == old(self).pos,
            final(self).lines@.len() == old(self).lines@.len(),
            final(self).rest_at() == old(self).rest_at() - 2,
            final(self).lines@[final(self).pos as int].indent == old(self).lines@[old(self).pos as int].indent + 2,
            final(self).ls() == rewritten(old(self).ls(), old(self).pos as int),
    {
        let p = self.pos;
        assert(line_wf(self.lines@[p as int]));
        let no = self.lines[p].no;
        let indent = self.lines[p].indent;
        let mut raw: Vec<char> = Vec::new();
        extend(&mut raw, &self.lines[p].raw);
        proof {
            let l = self.lines@[p as int];
            assert(l.raw@.skip(indent as int).skip(2) =~= l.raw@.skip(indent + 2));
        }
        self.lines.set(p, Line { no, indent: indent + 2, rest: tail, raw });
        proof {
            assert(self.ls() =~= rewritten(old(self).ls(), p as int));
            assert forall|i: int| 0 <= i < self.lines@.len() implies #[trigger] line_wf(self.lines@[i]) by {
                if i != p {
                    assert(self.lines@[i] == old(self).lines@[i]);
                }
            }
        }
    }

    /// Parses the item introduced by a bare `-` marker: an indented map or
    /// an indented nested list on the following lines.
    fn parse_bare_item(&mut self, indent: usize, line_no: usize, depth: usize) -> (r: Result<Node, Error>)
        requires
            old(self).wf(),
            depth >= 1,
            indent <= text_limit(),
        ensures
            progressed(*old(self), *final(self)),
            r matches Ok(n) ==> wf_node(n@) && depth_ok(n@, crate::MAX_DEPTH - depth),
            match bare_spec(old(self).ls(), old(self).pos as int, indent as nat, line_no as nat, depth as nat) {
                Ok((n, ls2, p2)) => r matches Ok(x) && x@ == n && final(self).ls() == ls2 && final(self).pos == p2,
                Err(d) => r matches Err(e) && error_is(e, d),
            },
        decreases old(self).lines@.len() - old(self).pos, old(self).rest_at(), 4int,
    {
        self.skip_insignificant();
        if self.pos >= self.lines.len() {
            return Err(missing_value(line_no, indent));
        }
        let p = self.pos;
        assert(line_wf(self.lines@[p as int]));
        let l_indent = self.lines[p].indent;
        let l_no = self.lines[p].no;
        if l_indent <= indent {
            return Err(missing_value(line_no, indent));
        }
        let child = l_indent;
        if child != indent + 2 {
            let msg = message_with_number("item content must be indented to column ", indent + 3);
            return Err(Error::from_chars(ErrorKind::BadIndent, l_no, child + 1, &msg));
        }
        let deeper = depth.saturating_add(1);
        if self.lines[p].is_marker() {
            let sub = self.parse_items(child, deeper)?;
            proof {
                lemma_list_ok(sub@, crate::MAX_DEPTH + 1 - deeper);
                lemma_saturated(NodeV::List(Seq::new(sub@.len(), |i: int| sub@[i]@)), depth, deeper, crate::MAX_DEPTH + 1);
            }
            Ok(Node::list(sub))
        } else {
            let m = self.parse_pairs(child, false, deeper)?;
            proof {
                lemma_saturated(NodeV::Mapping(m@), depth, deeper, crate::MAX_DEPTH + 1);
            }
            Ok(Node::Mapping(m))
        }
    }
}

/// Whether `s[0..hi]` starts with a `path:` pair (a bare word alone, or a
/// malformed path, is not one).
fn is_pair_start(s: &Vec<char>, hi: usize, line_no: usize, col: usize) -> (r: bool)
    requires
        hi <= s@.len(),
        col + 5 * hi + 2 <= usize::MAX,
    ensures
        r == (path_from(s@.take(hi as int), 0, Seq::empty(), line_no as nat, col as nat, false) matches Ok(
            Some(_),
        )),
{
    match scan_path(s, hi, line_no, col, false) {
        Ok(Some(_)) => true,
        _ => false,
    }
}

/// Parses a KVD document into a node tree: exactly what `document_spec`
/// reads, or the first error it meets. The root is always a map; an empty
/// or comments-only document parses as an empty map. Every map of the
/// result has distinct non-empty keys, every scalar's text matches its
/// shape, and no key or list item sits deeper than `MAX_DEPTH`.
pub fn from_str(text: &str) -> (r: Result<Node, Error>)
    requires
        text@.len() <= text_limit(),
    ensures
        match document_spec(text@) {
            Ok(n) => r matches Ok(x) && x@ == n,
            Err(d) => r matches Err(e) && error_is(e, d),
        },
        r matches Ok(n) ==> n@ is Mapping && wf_node(n@) && depth_ok(n@, crate::MAX_DEPTH as int),
        (forall|i: int| 0 <= i < doc_lines(text@).len() ==> #[trigger] blank_line(doc_lines(text@)[i]))
            ==> (r matches Ok(n) && n@ == NodeV::Mapping(Seq::empty())),
{
    let mut p = Parser::new(text);
    proof {
        assert forall|j: int| 0 <= j < p.lines@.len() implies blank_line(doc_lines(text@)[j]) ==> stripped(
            (#[trigger] p.lines@[j]).rest@,
        ).len() == 0 by {}
    }
    p.parse_document()
}

} // verus!
