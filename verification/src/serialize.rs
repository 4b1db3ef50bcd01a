//! Serializer: a node tree to KVD text.
//!
//! Spelling is re-derived from the value model rather than echoed from the
//! scalars' raw tokens: every string value is double-quoted, except the six
//! builtin type names (`int`, `str`, `bool`, `float`, `list`, `map`), which
//! stay bare for schema documents. Strings containing newlines use the
//! `"""` block form.
use vstd::prelude::*;
use crate::deserialize::pieces;
use crate::grammar::{spec_is_key, spec_is_known_metakey};
use crate::value::{Mapping, Node, NodeV, Scalar, ScalarV, Shape};
use crate::text::{extend, extend_range, extend_str, string_of, chars_of, char_from_u32};

verus! {

/// `n` spaces.
pub open spec fn spaces(n: nat) -> Seq<char> {
    Seq::new(n, |i: int| ' ')
}

/// A lowercase hexadecimal digit.
pub open spec fn hex_digit(d: nat) -> char {
    if d < 10 {
        (('0' as u32) + d) as char
    } else {
        (('a' as u32) + d - 10) as char
    }
}

/// The escaped spelling of one character inside a double-quoted string.
pub open spec fn escape_char(c: char) -> Seq<char> {
    if c == '"' {
        "\\\""@
    } else if c == '\\' {
        "\\\\"@
    } else if c == '\n' {
        "\\n"@
    } else if c == '\t' {
        "\\t"@
    } else if (c as u32) < 0x20 || (c as u32) == 0x7f {
        "\\u00"@ + seq![hex_digit((c as u32 / 16) as nat), hex_digit((c as u32 % 16) as nat)]
    } else {
        seq![c]
    }
}

/// The characters of `s`, each escaped.
pub open spec fn escape_chars(s: Seq<char>) -> Seq<char>
    decreases s.len(),
{
    if s.len() == 0 {
        Seq::empty()
    } else {
        escape_chars(s.drop_last()) + escape_char(s.last())
    }
}

/// The always-quoted spelling of `s`.
pub open spec fn escape_spec(s: Seq<char>) -> Seq<char> {
    "\""@ + escape_chars(s) + "\""@
}

/// A string value on one line: `""` when empty, bare when a type name
/// that schemas use (see `spec_is_bare_type`), double-quoted otherwise.
pub open spec fn quote_str_spec(s: Seq<char>) -> Seq<char> {
    if s.len() == 0 {
        "\"\""@
    } else if crate::grammar::spec_is_bare_type(s) {
        s
    } else {
        escape_spec(s)
    }
}

/// A key as written: bare when it is a bare key or the known metakey,
/// double-quoted otherwise; an empty key is an error.
pub open spec fn quote_key_spec(k: Seq<char>) -> Result<Seq<char>, Seq<char>> {
    if k.len() == 0 {
        Err("empty key"@)
    } else if spec_is_key(k) || spec_is_known_metakey(k) {
        Ok(k)
    } else {
        Ok(escape_spec(k))
    }
}

/// A key as written at a nesting slot: below the root, where the reader
/// takes the known metakey bare only at the root, it is double-quoted so
/// that it reads back as a plain key; otherwise as `quote_key_spec`.
pub open spec fn key_spec_at(k: Seq<char>, root: bool) -> Result<Seq<char>, Seq<char>> {
    if !root && k.len() > 0 && !spec_is_key(k) && spec_is_known_metakey(k) {
        Ok(escape_spec(k))
    } else {
        quote_key_spec(k)
    }
}

/// `s` without its `_` characters.
pub open spec fn without_underscores(s: Seq<char>) -> Seq<char>
    decreases s.len(),
{
    if s.len() == 0 {
        Seq::empty()
    } else if s.last() == '_' {
        without_underscores(s.drop_last())
    } else {
        without_underscores(s.drop_last()).push(s.last())
    }
}

/// A copy of `s` without its `_` characters.
pub(crate) fn remove_underscores(s: &Vec<char>) -> (r: Vec<char>)
    ensures
        r@ == without_underscores(s@),
{
    let mut r: Vec<char> = Vec::new();
    let mut i: usize = 0;
    while i < s.len()
        invariant
            i <= s@.len(),
            r@ == without_underscores(s@.take(i as int)),
        decreases s.len() - i,
    {
        assert(s@.take(i + 1).drop_last() =~= s@.take(i as int));
        if s[i] != '_' {
            r.push(s[i]);
        }
        i += 1;
    }
    assert(s@.take(s@.len() as int) =~= s@);
    r
}

/// Digits grouped in threes from the right, separated by `_`.
pub open spec fn group3(d: Seq<char>) -> Seq<char>
    decreases d.len(),
{
    if d.len() <= 3 {
        d
    } else {
        group3(d.take(d.len() - 3)) + "_"@ + d.skip(d.len() - 3)
    }
}

/// Whether every character is ASCII.
pub open spec fn all_ascii(s: Seq<char>) -> bool {
    forall|i: int| 0 <= i < s.len() ==> (s[i] as u32) < 0x80
}

/// Characters from `k` on, where character `k` starts at byte offset
/// `off` of a text of `total` bytes, with `_` before each that starts at a
/// cut: a byte offset past 0 that leaves a multiple of three bytes after it.
pub open spec fn byte_grouped(c: Seq<char>, k: int, off: nat, total: nat) -> Seq<char>
    decreases c.len() - k,
{
    if k < 0 || k >= c.len() {
        Seq::empty()
    } else {
        (if 0 < off && off % 3 == total % 3 {
            seq!['_']
        } else {
            Seq::empty()
        }) + seq![c[k]] + byte_grouped(c, k + 1, off + crate::text::utf8_len(c[k]), total)
    }
}

/// Whether no cut falls strictly inside a character of `w` bytes starting
/// at byte offset `off` (a character has at most four bytes).
pub open spec fn inner_offsets_uncut(off: nat, w: nat, total: nat) -> bool {
    &&& (w > 1 ==> (off + 1) % 3 != total % 3)
    &&& (w > 2 ==> (off + 2) % 3 != total % 3)
    &&& (w > 3 ==> (off + 3) % 3 != total % 3)
}

/// Whether no cut (see `byte_grouped`) falls inside one of the characters
/// from `k` on.
pub open spec fn cuts_on_boundaries(c: Seq<char>, k: int, off: nat, total: nat) -> bool
    decreases c.len() - k,
{
    if k < 0 || k >= c.len() {
        true
    } else {
        &&& inner_offsets_uncut(off, crate::text::utf8_len(c[k]), total)
        &&& cuts_on_boundaries(c, k + 1, off + crate::text::utf8_len(c[k]), total)
    }
}

/// The canonical spelling of an integer: its sign, then its digits without
/// `_`, grouped in threes from the right by `_`. The grouping counts UTF-8
/// bytes: for digits that are not all ASCII the text is cut at byte
/// offsets, and the spelling is undefined where a cut falls inside a
/// character.
pub open spec fn int_spec(t: Seq<char>) -> Option<Seq<char>> {
    let (sign, digits) = if t.len() > 0 && (t[0] == '+' || t[0] == '-') {
        (t.take(1), t.skip(1))
    } else {
        (Seq::<char>::empty(), t)
    };
    let clean = without_underscores(digits);
    let total = crate::text::bytes_len(clean);
    if all_ascii(clean) {
        Some(sign + group3(clean))
    } else if total <= 3 {
        Some(sign + clean)
    } else if cuts_on_boundaries(clean, 0, 0, total) {
        Some(sign + byte_grouped(clean, 0, 0, total))
    } else {
        None
    }
}

/// A line of a `"""` block: empty lines stay empty, others get the indent
/// and have their backslashes doubled.
pub open spec fn block_line(l: Seq<char>, pad: Seq<char>) -> Seq<char> {
    if l.len() == 0 {
        "\n"@
    } else {
        pad + double_backslashes(l) + "\n"@
    }
}

/// `l` with every backslash doubled.
pub open spec fn double_backslashes(l: Seq<char>) -> Seq<char>
    decreases l.len(),
{
    if l.len() == 0 {
        Seq::empty()
    } else if l.last() == '\\' {
        double_backslashes(l.drop_last()) + "\\\\"@
    } else {
        double_backslashes(l.drop_last()).push(l.last())
    }
}

/// The block lines of `ls`, in order.
pub open spec fn block_lines(ls: Seq<Seq<char>>, pad: Seq<char>) -> Seq<char>
    decreases ls.len(),
{
    if ls.len() == 0 {
        Seq::empty()
    } else {
        block_lines(ls.drop_last(), pad) + block_line(ls.last(), pad)
    }
}

/// A `"""` block for `text`: content lines two columns past `content_col`;
/// a text ending in a newline closes with `"""` alone at `closer_col`,
/// any other text closes with `"""` right after its last line.
pub open spec fn triple_spec(text: Seq<char>, content_col: nat, closer_col: nat) -> Seq<char> {
    let pad = spaces(content_col + 2);
    let closer = spaces(closer_col) + "\"\"\""@;
    "\"\"\"\n"@ + if text.len() > 0 && text.last() == '\n' {
        block_lines(pieces(text.drop_last()), pad) + closer
    } else {
        let ls = pieces(text);
        block_lines(ls.drop_last(), pad) + if ls.last().len() == 0 {
            closer
        } else {
            pad + double_backslashes(ls.last()) + "\"\"\""@
        }
    }
}

/// How a scalar value is written after its `key: ` or `- ` prefix; `None`
/// where the spelling is not defined.
pub open spec fn scalar_spec(s: ScalarV, content_col: nat, closer_col: nat) -> Option<Seq<char>> {
    match s.shape {
        Shape::Int => int_spec(s.text),
        Shape::Float | Shape::Bool => Some(s.text),
        Shape::Null => Some("null"@),
        Shape::Str => if as_block(s.text) {
            Some(triple_spec(s.text, content_col, closer_col))
        } else {
            Some(quote_str_spec(s.text))
        },
    }
}

/// Whether a string is written as a `"""` block: it holds a newline and
/// its block reads back as the string wherever it stands (see `block_ok`
/// and `closer_line_blank`). Any other string is written on one line,
/// double-quoted with escapes.
pub open spec fn as_block(text: Seq<char>) -> bool {
    text.contains('\n') && crate::readback::block::block_ok(text) && !crate::readback::block::closer_line_blank(text)
}

/// Leading spaces skipped: what `after_lead` gives.
fn after_lead_of(d: &Vec<char>) -> (r: Vec<char>)
    ensures
        r@ == crate::readback::block::after_lead(d@),
{
    let k = crate::deserialize::count_lead_spaces(d);
    crate::deserialize::chars_from(d, k)
}

/// The length of `s` without its trailing whitespace.
fn trim_end_count(s: &Vec<char>) -> (r: usize)
    ensures
        r == crate::lexer::trim_end_len(s@, s@.len() as int),
        r <= s@.len(),
{
    let mut n = s.len();
    while n > 0 && crate::lexer::is_ws_char(s[n - 1])
        invariant
            n <= s@.len(),
            crate::lexer::trim_end_len(s@, n as int) == crate::lexer::trim_end_len(s@, s@.len() as int),
        decreases n,
    {
        n -= 1;
    }
    n
}

/// Whether line `v[lo..hi]` of a block is one the reader takes as
/// content (see `content_line`).
fn content_line_at(v: &Vec<char>, lo: usize, hi: usize) -> (r: bool)
    requires
        lo <= hi <= v@.len(),
    ensures
        r == crate::readback::block::content_line(v@.subrange(lo as int, hi as int)),
{
    if lo == hi {
        return true;
    }
    let mut d: Vec<char> = Vec::new();
    push_doubled(&mut d, v, lo, hi);
    assert(d@ =~= double_backslashes(v@.subrange(lo as int, hi as int)));
    let w = after_lead_of(&d);
    if crate::deserialize::all_ws(&w) {
        return false;
    }
    let te = trim_end_count(&w);
    !(te >= 3 && w[te - 3] == '"' && w[te - 2] == '"' && w[te - 1] == '"')
}

/// Whether the last line of a text, `v[lo..hi]`, carries a closer that
/// would end a list item's block early (see `closer_line_blank`).
fn closer_blank_at(v: &Vec<char>, lo: usize, hi: usize) -> (r: bool)
    requires
        lo <= hi <= v@.len(),
    ensures
        r == ({
            let w = double_backslashes(v@.subrange(lo as int, hi as int));
            w.len() > 0 && w[0] != ' ' && crate::deserialize::all_ws_spec(w)
        }),
{
    let mut d: Vec<char> = Vec::new();
    push_doubled(&mut d, v, lo, hi);
    assert(d@ =~= double_backslashes(v@.subrange(lo as int, hi as int)));
    if d.len() == 0 {
        return false;
    }
    if d[0] == ' ' {
        return false;
    }
    crate::deserialize::all_ws(&d)
}

/// Whether the writer writes `text` as a `"""` block.
#[verifier::rlimit(40)]
fn writes_as_block(text: &Vec<char>) -> (r: bool)
    ensures
        r == as_block(text@),
{
    if !has_newline(text) {
        return false;
    }
    let n = text.len();
    let closes = n > 0 && text[n - 1] == '\n';
    let hi = if closes {
        n - 1
    } else {
        n
    };
    let ghost body = text@.subrange(0, hi as int);
    proof {
        if closes {
            assert(body =~= text@.drop_last());
        } else {
            assert(body =~= text@);
        }
    }
    let ghost b = crate::readback::block::block_body(text@);
    assert(b == pieces(body));
    let ghost mut done: Seq<Seq<char>> = Seq::empty();
    let mut ok = true;
    let mut plain = false;
    let mut empty = true;
    let mut cur: usize = 0;
    assert(body.subrange(0, hi as int) =~= body);
    assert(text@.subrange(0, hi as int) =~= body);
    loop
        invariant
            0 <= cur <= hi <= text@.len(),
            text@.contains('\n'),
            n == text@.len(),
            closes == (n > 0 && text@[n - 1] == '\n'),
            hi == if closes { n - 1 } else { n as int },
            body == text@.subrange(0, hi as int),
            b == pieces(body),
            b == crate::readback::block::block_body(text@),
            b == done + pieces(text@.subrange(cur as int, hi as int)),
            ok == (forall|j: int| 0 <= j < done.len() ==> crate::readback::block::content_line(#[trigger] done[j])),
            plain == (exists|j: int| 0 <= j < done.len() && (#[trigger] done[j]).len() > 0 && done[j][0] != ' '),
            empty == (forall|j: int| 0 <= j < done.len() ==> (#[trigger] done[j]).len() == 0),
        decreases hi - cur,
    {
        let k = crate::grammar::find_either(text, cur, hi, '\n', '\n');
        let ghost t = text@.subrange(cur as int, hi as int);
        proof {
            crate::grammar::lemma_index_of_either_bounds(t, '\n', '\n');
        }
        if k >= hi {
            proof {
                assert(pieces(t) == seq![t]);
                assert(b =~= done.push(t));
            }
            let last_ok = !closes || content_line_at(text, cur, hi);
            let last_plain = cur < hi && text[cur] != ' ';
            let blank = !closes && closer_blank_at(text, cur, hi);
            proof {
                assert(b.len() == done.len() + 1);
                assert(b.last() == t);
                assert(forall|j: int| 0 <= j < done.len() ==> b[j] == done[j]);
                if cur < hi {
                    assert(t[0] == text@[cur as int]);
                }
                assert((forall|j: int| 0 <= j < b.len() && (crate::readback::block::closes_alone(text@) || j < b.len() - 1)
                    ==> crate::readback::block::content_line(#[trigger] b[j])) == (ok && last_ok)) by {
                    assert(crate::readback::block::closes_alone(text@) == closes);
                    if ok && last_ok {
                        assert forall|j: int| 0 <= j < b.len() && (crate::readback::block::closes_alone(text@) || j < b.len() - 1)
                            implies crate::readback::block::content_line(#[trigger] b[j]) by {
                            if j < done.len() {
                                assert(b[j] == done[j]);
                            }
                        }
                    }
                    if !ok {
                        let j = choose|j: int| 0 <= j < done.len() && !crate::readback::block::content_line(#[trigger] done[j]);
                        assert(b[j] == done[j]);
                    }
                    if !last_ok {
                        assert(b[b.len() - 1] == t);
                    }
                }
                assert(((exists|j: int| 0 <= j < b.len() && (#[trigger] b[j]).len() > 0 && b[j][0] != ' ') || (forall|j: int|
                    0 <= j < b.len() ==> (#[trigger] b[j]).len() == 0)) == (plain || last_plain || (empty && cur == hi))) by {
                    if plain {
                        let j = choose|j: int| 0 <= j < done.len() && (#[trigger] done[j]).len() > 0 && done[j][0] != ' ';
                        assert(b[j] == done[j]);
                    }
                    if last_plain {
                        assert(b[b.len() - 1] == t);
                    }
                    if empty && cur == hi {
                        assert forall|j: int| 0 <= j < b.len() implies (#[trigger] b[j]).len() == 0 by {
                            if j < done.len() {
                                assert(b[j] == done[j]);
                            }
                        }
                    }
                    if !(plain || last_plain || (empty && cur == hi)) {
                        assert forall|j: int| 0 <= j < b.len() implies !((#[trigger] b[j]).len() > 0 && b[j][0] != ' ') by {
                            if j < done.len() {
                                assert(b[j] == done[j]);
                            }
                        }
                        if !empty {
                            let j = choose|j: int| 0 <= j < done.len() && (#[trigger] done[j]).len() != 0;
                            assert(b[j] == done[j]);
                        } else {
                            assert(b[b.len() - 1].len() != 0);
                        }
                    }
                }
                assert(crate::readback::block::closes_alone(text@) == closes);
                assert(text@.subrange(cur as int, hi as int) == t);
                let w = double_backslashes(t);
                assert(w == double_backslashes(b.last()));
                if !closes {
                    assert(blank == (w.len() > 0 && w[0] != ' ' && crate::deserialize::all_ws_spec(w)));
                }
                assert(crate::readback::block::closer_line_blank(text@) == blank);
            }
            return ok && last_ok && (plain || last_plain || (empty && cur == hi)) && !blank;
        }
        let line_ok = content_line_at(text, cur, k);
        let line_plain = cur < k && text[cur] != ' ';
        proof {
            let line = text@.subrange(cur as int, k as int);
            assert(t.take(k - cur) =~= line);
            assert(t.skip(k - cur + 1) =~= text@.subrange(k + 1, hi as int));
            assert(pieces(t) == seq![line] + pieces(text@.subrange(k + 1, hi as int)));
            assert(b =~= done.push(line) + pieces(text@.subrange(k + 1, hi as int)));
            if cur < k {
                assert(line[0] == text@[cur as int]);
            }
            let d2 = done.push(line);
            assert(forall|j: int| 0 <= j < done.len() ==> d2[j] == done[j]);
            assert(d2[done.len() as int] == line);
            assert((ok && line_ok) == (forall|j: int| 0 <= j < d2.len() ==> crate::readback::block::content_line(#[trigger] d2[j]))) by {
                if ok && line_ok {
                    assert forall|j: int| 0 <= j < d2.len() implies crate::readback::block::content_line(#[trigger] d2[j]) by {
                        if j < done.len() {
                            assert(d2[j] == done[j]);
                        }
                    }
                }
                if !ok {
                    let j = choose|j: int| 0 <= j < done.len() && !crate::readback::block::content_line(#[trigger] done[j]);
                    assert(d2[j] == done[j]);
                }
            }
            assert((plain || line_plain) == (exists|j: int| 0 <= j < d2.len() && (#[trigger] d2[j]).len() > 0 && d2[j][0] != ' ')) by {
                if plain {
                    let j = choose|j: int| 0 <= j < done.len() && (#[trigger] done[j]).len() > 0 && done[j][0] != ' ';
                    assert(d2[j] == done[j]);
                }
                if exists|j: int| 0 <= j < d2.len() && (#[trigger] d2[j]).len() > 0 && d2[j][0] != ' ' {
                    let j = choose|j: int| 0 <= j < d2.len() && (#[trigger] d2[j]).len() > 0 && d2[j][0] != ' ';
                    if j < done.len() {
                        assert(d2[j] == done[j]);
                    }
                }
            }
            assert((empty && cur == k) == (forall|j: int| 0 <= j < d2.len() ==> (#[trigger] d2[j]).len() == 0)) by {
                if empty && cur == k {
                    assert forall|j: int| 0 <= j < d2.len() implies (#[trigger] d2[j]).len() == 0 by {
                        if j < done.len() {
                            assert(d2[j] == done[j]);
                        }
                    }
                }
                if !empty {
                    let j = choose|j: int| 0 <= j < done.len() && (#[trigger] done[j]).len() != 0;
                    assert(d2[j] == done[j]);
                }
            }
            done = d2;
        }
        ok = ok && line_ok;
        plain = plain || line_plain;
        empty = empty && cur == k;
        cur = k + 1;
    }
}

/// What to write for a node.
pub enum Emit {
    /// A map's pairs, keys at the column, after the depth check.
    MapBody,
    /// A map's pairs from the given entry on.
    Entries(nat),
    /// A list's items, markers at the column, after the depth check.
    ListBody,
    /// A list's items from the given item on.
    Items(nat),
    /// A `key: value` pair for the node, key at the column.
    Pair(Seq<char>),
    /// A list item for the node, marker at the column.
    Item,
    /// The first pair of a map list item, written after its `- ` marker;
    /// the key sits at the column.
    Inline(Seq<char>),
}

/// The text written, the message of the error raised, or `None` where the
/// output is not defined.
pub type Emitted = Option<Result<Seq<char>, Seq<char>>>;

/// `a` followed by `b`: the first error (or undefined part) wins.
pub open spec fn then_emit(a: Emitted, b: Emitted) -> Emitted {
    match a {
        Some(Ok(x)) => match b {
            Some(Ok(y)) => Some(Ok(x + y)),
            other => other,
        },
        other => other,
    }
}

/// The message for trees nested too deep.
pub open spec fn depth_message() -> Seq<char> {
    "nesting exceeds the maximum depth of 100"@
}

/// Roles that hand on to another role of the same node rank higher.
pub open spec fn emit_rank(e: Emit) -> nat {
    match e {
        Emit::Entries(_) | Emit::Items(_) => 0,
        Emit::MapBody | Emit::ListBody => 1,
        _ => 2,
    }
}

/// Entries or items still to write.
pub open spec fn emit_left(n: NodeV, e: Emit) -> nat {
    match (e, n) {
        (Emit::Entries(k), NodeV::Mapping(m)) => if k < m.len() {
            (m.len() - k) as nat
        } else {
            0
        },
        (Emit::Items(k), NodeV::List(l)) => if k < l.len() {
            (l.len() - k) as nat
        } else {
            0
        },
        _ => 0,
    }
}

/// A value after its `key` prefix `pre`: `{}`/`[]` for empty collections,
/// an indented block for others, the scalar's spelling on the same line.
pub open spec fn value_after(pre: Seq<char>, n: NodeV, col: nat, nested: Emitted) -> Emitted {
    match n {
        NodeV::Mapping(m) => if m.len() == 0 {
            Some(Ok(pre + ": {}\n"@))
        } else {
            then_emit(Some(Ok(pre + ":\n"@)), nested)
        },
        NodeV::List(l) => if l.len() == 0 {
            Some(Ok(pre + ": []\n"@))
        } else {
            then_emit(Some(Ok(pre + ":\n"@)), nested)
        },
        NodeV::Scalar(s) => match scalar_spec(s, col, col) {
            Some(t) => Some(Ok(pre + ": "@ + t + "\n"@)),
            None => None,
        },
    }
}

/// The nested block of a map or list value whose key sits at `col`.
pub open spec fn nested_mode(n: NodeV) -> Emit {
    if n is List {
        Emit::ListBody
    } else {
        Emit::MapBody
    }
}

/// The text written for node `n` in role `e` at column `col`, where
/// `depth` is the nesting slot (root keys are at slot 1).
pub open spec fn ser(n: NodeV, e: Emit, col: nat, depth: nat) -> Emitted
    decreases n, emit_rank(e), emit_left(n, e),
{
    match e {
        Emit::MapBody => if depth > 100 {
            Some(Err(depth_message()))
        } else {
            ser(n, Emit::Entries(0), col, depth)
        },
        Emit::ListBody => if depth > 100 {
            Some(Err(depth_message()))
        } else {
            ser(n, Emit::Items(0), col, depth)
        },
        Emit::Entries(k) => match n {
            NodeV::Mapping(m) => if k < m.len() {
                then_emit(
                    ser(m[k as int].1, Emit::Pair(m[k as int].0), col, depth),
                    ser(n, Emit::Entries(k + 1), col, depth),
                )
            } else {
                Some(Ok(Seq::empty()))
            },
            _ => Some(Ok(Seq::empty())),
        },
        Emit::Items(k) => match n {
            NodeV::List(l) => if k < l.len() {
                then_emit(ser(l[k as int], Emit::Item, col, depth), ser(n, Emit::Items(k + 1), col, depth))
            } else {
                Some(Ok(Seq::empty()))
            },
            _ => Some(Ok(Seq::empty())),
        },
        Emit::Pair(key) => match key_spec_at(key, col == 0) {
            Err(msg) => Some(Err(msg)),
            Ok(qk) => value_after(
                spaces(col) + qk,
                n,
                col,
                if n is Scalar {
                    None
                } else {
                    ser(n, nested_mode(n), col + 2, depth + 1)
                },
            ),
        },
        Emit::Inline(key) => match key_spec_at(key, false) {
            Err(msg) => Some(Err(msg)),
            Ok(qk) => value_after(
                spaces((col - 2) as nat) + "- "@ + qk,
                n,
                col,
                if n is Scalar {
                    None
                } else {
                    ser(n, nested_mode(n), col + 2, depth + 1)
                },
            ),
        },
        Emit::Item => match n {
            NodeV::Mapping(m) => if m.len() == 0 {
                Some(Ok(spaces(col) + "- {}\n"@))
            } else if depth + 1 > 100 {
                Some(Err(depth_message()))
            } else {
                then_emit(
                    ser(m[0].1, Emit::Inline(m[0].0), col + 2, depth + 1),
                    ser(n, Emit::Entries(1), col + 2, depth + 1),
                )
            },
            NodeV::List(l) => if l.len() == 0 {
                Some(Ok(spaces(col) + "- []\n"@))
            } else {
                then_emit(Some(Ok(spaces(col) + "-\n"@)), ser(n, Emit::ListBody, col + 2, depth + 1))
            },
            NodeV::Scalar(s) => match scalar_spec(s, col, col + 2) {
                Some(t) => Some(Ok(spaces(col) + "- "@ + t + "\n"@)),
                None => None,
            },
        },
    }
}

/// The KVD text of a document: its root must be a map.
pub open spec fn to_string_spec(doc: NodeV) -> Emitted {
    if doc is Mapping {
        ser(doc, Emit::MapBody, 0, 1)
    } else {
        Some(Err("document root must be a mapping"@))
    }
}

/// Error produced while serializing a node tree.
#[derive(Debug, Clone, PartialEq, Eq)]
pub struct SerializeError {
    message: String,
}

impl SerializeError {
    /// The message of this error.
    pub closed spec fn view(&self) -> Seq<char> {
        self.message@
    }

    fn new(message: &str) -> (e: SerializeError)
        ensures
            e@ == message@,
    {
        SerializeError { message: String::from_str(message) }
    }

    /// The display form of this error: its message.
    pub fn to_string(&self) -> (s: String)
        ensures
            s@ == self@,
    {
        self.message.clone()
    }
}

/// Whether an emitter's outcome is what `e` describes, for output that
/// was `before` and is `after`.
pub open spec fn emitted_as(e: Emitted, r: Result<(), SerializeError>, before: Seq<char>, after: Seq<char>) -> bool {
    match e {
        Some(Ok(t)) => r is Ok && after == before + t,
        Some(Err(m)) => r matches Err(x) && x@ == m,
        None => true,
    }
}

/// Appends `n` spaces.
fn push_spaces(out: &mut Vec<char>, n: usize)
    ensures
        final(out)@ == old(out)@ + spaces(n as nat),
{
    let mut i: usize = 0;
    while i < n
        invariant
            i <= n,
            out@ == old(out)@ + spaces(i as nat),
        decreases n - i,
    {
        out.push(' ');
        i += 1;
        assert(spaces(i as nat) =~= spaces((i - 1) as nat).push(' '));
    }
    assert(spaces(n as nat) =~= spaces(i as nat));
}

/// The lowercase hexadecimal digit for `d < 16`.
fn hex_char(d: u32) -> (c: char)
    requires
        d < 16,
    ensures
        c == hex_digit(d as nat),
{
    let code = if d < 10 { ('0' as u32) + d } else { ('a' as u32) + d - 10 };
    match char_from_u32(code) {
        Some(c) => c,
        None => ' ',
    }
}

/// The always-quoted spelling of `s`, with escapes applied.
fn escape(s: &Vec<char>) -> (r: Vec<char>)
    ensures
        r@ == escape_spec(s@),
{
    let mut out: Vec<char> = Vec::new();
    extend_str(&mut out, "\"");
    let mut i: usize = 0;
    assert(s@.take(0) =~= Seq::<char>::empty());
    assert(out@ =~= "\""@ + escape_chars(s@.take(0)));
    while i < s.len()
        invariant
            i <= s@.len(),
            out@ == "\""@ + escape_chars(s@.take(i as int)),
        decreases s.len() - i,
    {
        let c = s[i];
        let ghost before = out@;
        if c == '"' {
            extend_str(&mut out, "\\\"");
        } else if c == '\\' {
            extend_str(&mut out, "\\\\");
        } else if c == '\n' {
            extend_str(&mut out, "\\n");
        } else if c == '\t' {
            extend_str(&mut out, "\\t");
        } else if (c as u32) < 0x20 || (c as u32) == 0x7f {
            extend_str(&mut out, "\\u00");
            let code = c as u32;
            out.push(hex_char(code / 16));
            out.push(hex_char(code % 16));
            assert(out@ =~= before + ("\\u00"@ + seq![hex_digit((code / 16) as nat), hex_digit((code % 16) as nat)]));
        } else {
            out.push(c);
        }
        proof {
            assert(s@.take(i + 1).drop_last() =~= s@.take(i as int));
            assert(out@ =~= before + escape_char(c));
        }
        i += 1;
    }
    extend_str(&mut out, "\"");
    assert(s@.take(s@.len() as int) =~= s@);
    out
}

/// Emits `s` on one line: bare when it is a type name schemas use,
/// otherwise double-quoted.
fn quote_str(s: &Vec<char>) -> (r: Vec<char>)
    ensures
        r@ == quote_str_spec(s@),
{
    if s.len() == 0 {
        let mut r: Vec<char> = Vec::new();
        extend_str(&mut r, "\"\"");
        return r;
    }
    assert(s@.subrange(0, s@.len() as int) =~= s@);
    if crate::grammar::is_bare_type_range(s, 0, s.len()) {
        let mut r: Vec<char> = Vec::new();
        extend(&mut r, s);
        return r;
    }
    escape(s)
}

/// The key as written in a pair, at the root or below it.
fn quote_key_chars(k: &Vec<char>, root: bool) -> (r: Result<Vec<char>, SerializeError>)
    ensures
        match key_spec_at(k@, root) {
            Ok(t) => r matches Ok(x) && x@ == t,
            Err(m) => r matches Err(e) && e@ == m,
        },
{
    if k.len() == 0 {
        return Err(SerializeError::new("empty key"));
    }
    assert(k@.subrange(0, k@.len() as int) =~= k@);
    proof {
        reveal_strlit("__schema__");
    }
    if crate::grammar::is_key_range(k, 0, k.len()) || (root && crate::grammar::range_is(k, 0, k.len(), "__schema__")) {
        let mut r: Vec<char> = Vec::new();
        extend(&mut r, k);
        Ok(r)
    } else {
        Ok(escape(k))
    }
}

/// Quotes `s` unless it is a bare key or the known metakey. Keys that are
/// not bare (such as `app.kubernetes.io/name`) come out double-quoted, so
/// they read back as the same key; an empty key is an error.
pub fn quote_key(s: &str) -> (r: Result<String, SerializeError>)
    ensures
        match quote_key_spec(s@) {
            Ok(t) => r matches Ok(x) && x@ == t,
            Err(m) => r matches Err(e) && e@ == m,
        },
{
    let k = chars_of(s);
    let q = quote_key_chars(&k, true)?;
    Ok(string_of(&q))
}

/// Whether every character is ASCII.
fn is_ascii_chars(v: &Vec<char>) -> (r: bool)
    ensures
        r == all_ascii(v@),
{
    let mut i: usize = 0;
    while i < v.len()
        invariant
            i <= v@.len(),
            forall|j: int| 0 <= j < i ==> (v@[j] as u32) < 0x80,
        decreases v.len() - i,
    {
        if (v[i] as u32) >= 0x80 {
            return false;
        }
        i += 1;
    }
    true
}

/// The number of bytes of a character in UTF-8.
fn utf8_width(c: char) -> (w: u128)
    ensures
        w == crate::text::utf8_len(c),
{
    let code = c as u32;
    if code < 0x80 {
        1
    } else if code < 0x800 {
        2
    } else if code < 0x10000 {
        3
    } else {
        4
    }
}

/// The number of bytes of `v` in UTF-8.
fn bytes_of(v: &Vec<char>) -> (n: u128)
    ensures
        n == crate::text::bytes_len(v@),
{
    let mut n: u128 = 0;
    let mut i: usize = 0;
    while i < v.len()
        invariant
            i <= v@.len(),
            n == crate::text::bytes_len(v@.take(i as int)),
        decreases v.len() - i,
    {
        proof {
            assert(v@.take(i + 1).drop_last() =~= v@.take(i as int));
            crate::text::lemma_bytes_len_bound(v@.take(i as int));
        }
        n = n + utf8_width(v[i]);
        i += 1;
    }
    assert(v@.take(v@.len() as int) =~= v@);
    n
}

/// `out` followed by the characters of `c` grouped at byte cuts, for a
/// text of `total` bytes whose cuts all fall between characters.
fn group_by_bytes(out: Vec<char>, c: &Vec<char>, total: u128) -> (r: Vec<char>)
    requires
        total == crate::text::bytes_len(c@),
        cuts_on_boundaries(c@, 0, 0, total as nat),
    ensures
        r@ == out@ + byte_grouped(c@, 0, 0, total as nat),
{
    let mut out = out;
    let ghost out0 = out@;
    let mut off: u128 = 0;
    let mut k: usize = 0;
    assert(out@ + byte_grouped(c@, 0, 0, total as nat) == out0 + byte_grouped(c@, 0, 0, total as nat));
    while k < c.len()
        invariant
            k <= c@.len(),
            total == crate::text::bytes_len(c@),
            off == crate::text::bytes_len(c@.take(k as int)),
            out@ + byte_grouped(c@, k as int, off as nat, total as nat) == out0 + byte_grouped(c@, 0, 0, total as nat),
        decreases c.len() - k,
    {
        proof {
            assert(c@.take(k + 1).drop_last() =~= c@.take(k as int));
            crate::text::lemma_bytes_len_bound(c@.take(k as int));
        }
        let ghost before = out@;
        if off > 0 && off % 3 == total % 3 {
            out.push('_');
        }
        out.push(c[k]);
        let w = utf8_width(c[k]);
        proof {
            let piece = (if 0 < off && off % 3 == total % 3 {
                seq!['_']
            } else {
                Seq::<char>::empty()
            }) + seq![c@[k as int]];
            assert(out@ =~= before + piece);
            assert(byte_grouped(c@, k as int, off as nat, total as nat) == piece + byte_grouped(
                c@,
                k + 1,
                (off + w) as nat,
                total as nat,
            ));
        }
        off = off + w;
        k += 1;
    }
    assert(byte_grouped(c@, k as int, off as nat, total as nat) =~= Seq::<char>::empty());
    out
}

/// Whether no cut of the byte grouping of `c` falls inside a character.
fn cuts_ok(c: &Vec<char>, total: u128) -> (r: bool)
    requires
        total == crate::text::bytes_len(c@),
    ensures
        r == cuts_on_boundaries(c@, 0, 0, total as nat),
{
    let mut off: u128 = 0;
    let mut k: usize = 0;
    proof {
        crate::text::lemma_bytes_len_bound(c@);
    }
    while k < c.len()
        invariant
            k <= c@.len(),
            total == crate::text::bytes_len(c@),
            total <= 4 * c@.len(),
            off == crate::text::bytes_len(c@.take(k as int)),
            cuts_on_boundaries(c@, 0, 0, total as nat) == cuts_on_boundaries(c@, k as int, off as nat, total as nat),
        decreases c.len() - k,
    {
        proof {
            assert(c@.take(k + 1).drop_last() =~= c@.take(k as int));
            crate::text::lemma_bytes_len_bound(c@.take(k as int));
        }
        let w = utf8_width(c[k]);
        let ok = (w <= 1 || (off + 1) % 3 != total % 3) && (w <= 2 || (off + 2) % 3 != total % 3) && (w <= 3 || (off
            + 3) % 3 != total % 3);
        if !ok {
            return false;
        }
        off = off + w;
        k += 1;
    }
    true
}

/// Whether an integer's text has a spelling: grouping its digits by
/// UTF-8 bytes cuts no character (see `int_spec`).
pub fn int_spellable(text: &str) -> (r: bool)
    ensures
        r == (int_spec(text@) is Some),
{
    let t = chars_of(text);
    let start: usize = if t.len() > 0 && (t[0] == '+' || t[0] == '-') {
        1
    } else {
        0
    };
    let digits = crate::deserialize::chars_from(&t, start);
    assert(digits@ =~= (if text@.len() > 0 && (text@[0] == '+' || text@[0] == '-') { text@.skip(1) } else { text@ }));
    let clean = remove_underscores(&digits);
    if is_ascii_chars(&clean) {
        return true;
    }
    let total = bytes_of(&clean);
    if total <= 3 {
        return true;
    }
    cuts_ok(&clean, total)
}

/// Whether every integer in a tree has a spelling.
pub open spec fn ints_spellable(n: NodeV) -> bool
    decreases n,
{
    match n {
        NodeV::Scalar(s) => s.shape != Shape::Int || int_spec(s.text) is Some,
        NodeV::Mapping(m) => forall|i: int| 0 <= i < m.len() ==> ints_spellable(#[trigger] m[i].1),
        NodeV::List(l) => forall|i: int| 0 <= i < l.len() ==> ints_spellable(#[trigger] l[i]),
    }
}

/// A tree whose integers all have spellings is written, or refused with
/// an error, in every role: the writer never meets a text it cannot
/// spell.
pub proof fn lemma_spellable_written(n: NodeV, e: Emit, col: nat, depth: nat)
    requires
        ints_spellable(n),
    ensures
        ser(n, e, col, depth) is Some,
    decreases n, emit_rank(e), emit_left(n, e),
{
    match e {
        Emit::MapBody => {
            lemma_spellable_written(n, Emit::Entries(0), col, depth);
        },
        Emit::ListBody => {
            lemma_spellable_written(n, Emit::Items(0), col, depth);
        },
        Emit::Entries(k) => {
            if let NodeV::Mapping(m) = n {
                if k < m.len() {
                    assert(ints_spellable(m[k as int].1));
                    lemma_spellable_written(m[k as int].1, Emit::Pair(m[k as int].0), col, depth);
                    lemma_spellable_written(n, Emit::Entries(k + 1), col, depth);
                }
            }
        },
        Emit::Items(k) => {
            if let NodeV::List(l) = n {
                if k < l.len() {
                    assert(ints_spellable(l[k as int]));
                    lemma_spellable_written(l[k as int], Emit::Item, col, depth);
                    lemma_spellable_written(n, Emit::Items(k + 1), col, depth);
                }
            }
        },
        Emit::Pair(_) | Emit::Inline(_) => {
            if !(n is Scalar) {
                lemma_spellable_written(n, nested_mode(n), col + 2, depth + 1);
            }
        },
        Emit::Item => {
            match n {
                NodeV::Mapping(m) => {
                    if m.len() > 0 {
                        assert(ints_spellable(m[0].1));
                        lemma_spellable_written(m[0].1, Emit::Inline(m[0].0), col + 2, depth + 1);
                        lemma_spellable_written(n, Emit::Entries(1), col + 2, depth + 1);
                    }
                },
                NodeV::List(l) => {
                    if l.len() > 0 {
                        lemma_spellable_written(n, Emit::ListBody, col + 2, depth + 1);
                    }
                },
                NodeV::Scalar(_) => {},
            }
        },
    }
}

/// Whether every integer of a node has a spelling, so that `to_string`
/// may be called on it.
pub fn writable(doc: &Node) -> (r: bool)
    ensures
        r == ints_spellable(doc@),
        r ==> to_string_spec(doc@) is Some,
{
    proof {
        if ints_spellable(doc@) {
            lemma_spellable_written(doc@, Emit::MapBody, 0, 1);
        }
    }
    crate::value::node_spellable(doc)
}

/// The canonical spelling of an integer literal: sign kept, digits
/// regrouped in threes with `_`.
fn format_int_favored(text: &Vec<char>) -> (r: Vec<char>)
    requires
        int_spec(text@) is Some,
    ensures
        int_spec(text@) == Some(r@),
{
    let mut out: Vec<char> = Vec::new();
    let mut start: usize = 0;
    if text.len() > 0 && (text[0] == '+' || text[0] == '-') {
        out.push(text[0]);
        start = 1;
    }
    let ghost sign = out@;
    let ghost digits = text@.skip(start as int);
    assert(digits =~= (if text@.len() > 0 && (text@[0] == '+' || text@[0] == '-') { text@.skip(1) } else { text@ }));
    assert(sign =~= (if text@.len() > 0 && (text@[0] == '+' || text@[0] == '-') { text@.take(1) } else { Seq::<char>::empty() }));
    let mut clean: Vec<char> = Vec::new();
    let mut j = start;
    while j < text.len()
        invariant
            start <= j <= text@.len(),
            digits == text@.skip(start as int),
            clean@ == without_underscores(digits.take(j - start)),
        decreases text.len() - j,
    {
        assert(digits.take(j + 1 - start).drop_last() =~= digits.take(j - start));
        if text[j] != '_' {
            clean.push(text[j]);
        }
        j += 1;
    }
    assert(digits.take(j - start) =~= digits);
    if !is_ascii_chars(&clean) {
        let total = bytes_of(&clean);
        if total <= 3 {
            extend(&mut out, &clean);
            return out;
        }
        let r = group_by_bytes(out, &clean, total);
        return r;
    }
    let len = clean.len();
    if len <= 3 {
        extend(&mut out, &clean);
        return out;
    }
    let first = len % 3;
    let mut i: usize = if first != 0 { first } else { 3 };
    extend_range(&mut out, &clean, 0, i);
    assert(clean@.subrange(0, i as int) =~= clean@.take(i as int));
    while i < len
        invariant
            0 < i <= len == clean@.len(),
            i % 3 == len % 3,
            out@ == sign + group3(clean@.take(i as int)),
        decreases len - i,
    {
        let ghost before = out@;
        extend_str(&mut out, "_");
        extend_range(&mut out, &clean, i, i + 3);
        proof {
            let d = clean@.take(i + 3);
            assert(d.take(i as int) =~= clean@.take(i as int));
            assert(d.skip(i as int) =~= clean@.subrange(i as int, i + 3));
            assert(out@ =~= before + "_"@ + clean@.subrange(i as int, i + 3));
        }
        i = i + 3;
    }
    assert(clean@.take(len as int) =~= clean@);
    out
}

/// Whether `v[lo..hi]` holds a newline.
fn has_newline(v: &Vec<char>) -> (r: bool)
    ensures
        r == v@.contains('\n'),
{
    let k = crate::grammar::find_either(v, 0, v.len(), '\n', '\n');
    proof {
        assert(v@.subrange(0, v@.len() as int) =~= v@);
        crate::grammar::lemma_index_of_either_bounds(v@, '\n', '\n');
        if v@.contains('\n') {
            let w = choose|w: int| 0 <= w < v@.len() && v@[w] == '\n';
            assert(k <= w);
        }
    }
    k < v.len()
}

/// Appends `l` (the line `v[lo..hi]`) with its backslashes doubled.
fn push_doubled(out: &mut Vec<char>, v: &Vec<char>, lo: usize, hi: usize)
    requires
        lo <= hi <= v@.len(),
    ensures
        final(out)@ == old(out)@ + double_backslashes(v@.subrange(lo as int, hi as int)),
{
    let mut i = lo;
    while i < hi
        invariant
            lo <= i <= hi <= v@.len(),
            out@ == old(out)@ + double_backslashes(v@.subrange(lo as int, i as int)),
        decreases hi - i,
    {
        let ghost before = out@;
        assert(v@.subrange(lo as int, i + 1).drop_last() =~= v@.subrange(lo as int, i as int));
        if v[i] == '\\' {
            extend_str(out, "\\\\");
        } else {
            out.push(v[i]);
        }
        i += 1;
    }
}

/// Appends the block form of every newline-separated piece of `v[lo..hi]`
/// but the last, and returns where the last piece starts.
fn push_block_lines_but_last(out: &mut Vec<char>, v: &Vec<char>, lo: usize, hi: usize, pad: usize) -> (last: usize)
    requires
        lo <= hi <= v@.len(),
    ensures
        lo <= last <= hi,
        final(out)@ == old(out)@ + block_lines(pieces(v@.subrange(lo as int, hi as int)).drop_last(), spaces(pad as nat)),
        pieces(v@.subrange(lo as int, hi as int)).last() == v@.subrange(last as int, hi as int),
        pieces(v@.subrange(lo as int, hi as int)).len() > 0,
{
    let ghost p = spaces(pad as nat);
    let ghost mut done: Seq<Seq<char>> = Seq::empty();
    let mut cur = lo;
    assert(pieces(v@.subrange(lo as int, hi as int)) =~= done + pieces(v@.subrange(cur as int, hi as int)));
    loop
        invariant
            lo <= cur <= hi <= v@.len(),
            pieces(v@.subrange(lo as int, hi as int)) == done + pieces(v@.subrange(cur as int, hi as int)),
            out@ == old(out)@ + block_lines(done, p),
            p == spaces(pad as nat),
        decreases hi - cur,
    {
        let k = crate::grammar::find_either(v, cur, hi, '\n', '\n');
        let ghost t = v@.subrange(cur as int, hi as int);
        proof {
            crate::grammar::lemma_index_of_either_bounds(t, '\n', '\n');
        }
        if k >= hi {
            proof {
                assert(pieces(t) == seq![t]);
                let all = pieces(v@.subrange(lo as int, hi as int));
                assert(all =~= done.push(t));
                assert(all.drop_last() =~= done);
            }
            return cur;
        }
        let ghost before = out@;
        if k == cur {
            extend_str(out, "\n");
        } else {
            push_spaces(out, pad);
            push_doubled(out, v, cur, k);
            extend_str(out, "\n");
        }
        proof {
            let line = v@.subrange(cur as int, k as int);
            assert(t.take(k - cur) =~= line);
            assert(t.skip(k - cur + 1) =~= v@.subrange(k + 1, hi as int));
            assert(done.push(line).drop_last() =~= done);
            assert(out@ =~= before + block_line(line, p));
            done = done.push(line);
        }
        cur = k + 1;
    }
}

/// Emits a `"""` block for `text`. Content lines sit two columns past
/// `content_col`. A text ending in a newline gets its content without that
/// newline and a `"""` alone at `closer_col` (the parser adds the newline
/// back); any other text gets `"""` right after its last line.
#[verifier::spinoff_prover]
#[verifier::rlimit(40)]
fn emit_triple(text: &Vec<char>, content_col: usize, closer_col: usize, out: &mut Vec<char>)
    requires
        content_col + 2 <= usize::MAX,
    ensures
        final(out)@ == old(out)@ + triple_spec(text@, content_col as nat, closer_col as nat),
{
    let ghost pad = spaces((content_col + 2) as nat);
    let ghost closer = spaces(closer_col as nat) + "\"\"\""@;
    let ghost o0 = out@;
    extend_str(out, "\"\"\"\n");
    let ghost o1 = out@;
    let n = text.len();
    if n > 0 && text[n - 1] == '\n' {
        let last = push_block_lines_but_last(out, text, 0, n - 1, content_col + 2);
        proof {
            assert(text@.subrange(0, n - 1) =~= text@.drop_last());
        }
        let ghost o2 = out@;
        if last == n - 1 {
            extend_str(out, "\n");
        } else {
            push_spaces(out, content_col + 2);
            push_doubled(out, text, last, n - 1);
            extend_str(out, "\n");
        }
        push_spaces(out, closer_col);
        extend_str(out, "\"\"\"");
        proof {
            let ls = pieces(text@.drop_last());
            assert(ls.drop_last().push(ls.last()) =~= ls);
            assert(out@ =~= o1 + (block_lines(ls.drop_last(), pad) + block_line(ls.last(), pad)) + closer);
        }
    } else {
        let last = push_block_lines_but_last(out, text, 0, n, content_col + 2);
        proof {
            assert(text@.subrange(0, n as int) =~= text@);
        }
        if last == n {
            push_spaces(out, closer_col);
            extend_str(out, "\"\"\"");
        } else {
            push_spaces(out, content_col + 2);
            push_doubled(out, text, last, n);
            extend_str(out, "\"\"\"");
        }
        proof {
            assert(out@ =~= o0 + triple_spec(text@, content_col as nat, closer_col as nat));
        }
    }
}

/// Writes a scalar's value after its `key: ` or `- ` prefix. Newline
/// strings become `"""` blocks; `content_col` is the column of the key
/// (block content sits two past it) and `closer_col` the column of a
/// standalone closer.
fn write_scalar_value(s: &Scalar, content_col: usize, closer_col: usize, out: &mut Vec<char>)
    requires
        scalar_spec(s@, content_col as nat, closer_col as nat) is Some,
        content_col + 2 <= usize::MAX,
    ensures
        scalar_spec(s@, content_col as nat, closer_col as nat) == Some(final(out)@.skip(old(out)@.len() as int)),
        final(out)@.len() >= old(out)@.len(),
        final(out)@.take(old(out)@.len() as int) == old(out)@,
{
    let ghost o = out@;
    let t = chars_of(s.text.as_str());
    match s.shape {
        Shape::Int => {
            let f = format_int_favored(&t);
            extend(out, &f);
        },
        Shape::Float | Shape::Bool => {
            extend(out, &t);
        },
        Shape::Null => {
            extend_str(out, "null");
        },
        Shape::Str => {
            if writes_as_block(&t) {
                emit_triple(&t, content_col, closer_col, out);
            } else {
                let q = quote_str(&t);
                extend(out, &q);
            }
        },
    }
    assert(out@.skip(o.len() as int) =~= out@.subrange(o.len() as int, out@.len() as int));
    assert(out@.take(o.len() as int) =~= o);
}

/// The view of a list of nodes.
pub open spec fn list_view(items: Seq<Node>) -> NodeV {
    NodeV::List(Seq::new(items.len(), |i: int| items[i]@))
}

/// A list node's view is the view of its items.
pub proof fn lemma_list_view_pub(n: &Node, items: &Vec<Node>)
    requires
        *n == Node::List(*items),
    ensures
        n@ == list_view(items@),
{
    lemma_list_view(n, items);
}

/// A list node's view is the view of its items.
proof fn lemma_list_view(n: &Node, items: &Vec<Node>)
    requires
        *n == Node::List(*items),
    ensures
        n@ == list_view(items@),
{
    assert(n@->List_0 =~= list_view(items@)->List_0);
}

/// `a` after text `acc`: the combination is associative.
proof fn lemma_then_assoc(acc: Seq<char>, t: Seq<char>, rest: Emitted)
    ensures
        then_emit(Some(Ok(acc)), then_emit(Some(Ok(t)), rest)) == then_emit(Some(Ok(acc + t)), rest),
{
    match rest {
        Some(Ok(y)) => {
            assert(acc + (t + y) =~= (acc + t) + y);
        },
        _ => {},
    }
}

/// An emitter that succeeded wrote exactly the text its role describes.
proof fn lemma_ok_step(e: Emitted, r: Result<(), SerializeError>, before: Seq<char>, after: Seq<char>)
    requires
        e is Some,
        r is Ok,
        emitted_as(e, r, before, after),
    ensures
        e == Some(Ok::<Seq<char>, Seq<char>>(after.skip(before.len() as int))),
        after == before + after.skip(before.len() as int),
{
    match e {
        Some(Ok(t)) => {
            assert(after.skip(before.len() as int) =~= t);
        },
        _ => {},
    }
}

/// Emits a map's pairs with keys at column `indent`; `depth` is the
/// nesting slot of its keys.
fn emit_map(m: &Mapping, indent: usize, depth: usize, out: &mut Vec<char>) -> (r: Result<(), SerializeError>)
    requires
        1 <= depth <= 101,
        indent <= 4 * depth,
        ser(NodeV::Mapping(m@), Emit::MapBody, indent as nat, depth as nat) is Some,
    ensures
        emitted_as(ser(NodeV::Mapping(m@), Emit::MapBody, indent as nat, depth as nat), r, old(out)@, final(out)@),
    decreases 101 - depth, 4nat,
{
    if depth > crate::MAX_DEPTH {
        return Err(SerializeError::new("nesting exceeds the maximum depth of 100"));
    }
    emit_entries(m, 0, indent, depth, out)
}

/// Emits the pairs of `m` from entry `from` on, keys at column `keycol`.
fn emit_entries(m: &Mapping, from: usize, keycol: usize, depth: usize, out: &mut Vec<char>) -> (r: Result<(), SerializeError>)
    requires
        1 <= depth <= 100,
        keycol <= 4 * depth + 2,
        from <= m@.len(),
        ser(NodeV::Mapping(m@), Emit::Entries(from as nat), keycol as nat, depth as nat) is Some,
    ensures
        emitted_as(
            ser(NodeV::Mapping(m@), Emit::Entries(from as nat), keycol as nat, depth as nat),
            r,
            old(out)@,
            final(out)@,
        ),
    decreases 101 - depth, 2nat,
{
    let ghost n = NodeV::Mapping(m@);
    let ghost total = ser(n, Emit::Entries(from as nat), keycol as nat, depth as nat);
    let ghost mut acc: Seq<char> = Seq::empty();
    let mut k = from;
    assert(acc + Seq::<char>::empty() =~= acc);
    assert(old(out)@ + acc =~= old(out)@);
    loop
        invariant
            from <= k <= m@.len(),
            1 <= depth <= 100,
            keycol <= 4 * depth + 2,
            n == NodeV::Mapping(m@),
            total == ser(n, Emit::Entries(from as nat), keycol as nat, depth as nat),
            total is Some,
            total == then_emit(Some(Ok(acc)), ser(n, Emit::Entries(k as nat), keycol as nat, depth as nat)),
            out@ == old(out)@ + acc,
        decreases m@.len() - k,
    {
        if k >= m.len() {
            assert(acc + Seq::<char>::empty() =~= acc);
            return Ok(());
        }
        let ghost rest = ser(n, Emit::Entries((k + 1) as nat), keycol as nat, depth as nat);
        let key = m.key_at(k);
        let node = m.node_at(k);
        let ghost before = out@;
        let ghost step = ser(node@, Emit::Pair(key@), keycol as nat, depth as nat);
        assert(ser(n, Emit::Entries(k as nat), keycol as nat, depth as nat) == then_emit(step, rest));
        assert(step is Some);
        let res = emit_pair(key.as_str(), node, keycol, depth, out);
        if res.is_err() {
            return res;
        }
        proof {
            let t = out@.skip(before.len() as int);
            lemma_ok_step(step, res, before, out@);
            lemma_then_assoc(acc, t, rest);
            acc = acc + t;
            assert(out@ =~= old(out)@ + acc);
        }
        k += 1;
    }
}

/// Emits one `key: value` pair whose key starts at column `keycol`.
fn emit_pair(key: &str, node: &Node, keycol: usize, depth: usize, out: &mut Vec<char>) -> (r: Result<(), SerializeError>)
    requires
        1 <= depth <= 100,
        keycol <= 4 * depth + 2,
        ser(node@, Emit::Pair(key@), keycol as nat, depth as nat) is Some,
    ensures
        emitted_as(ser(node@, Emit::Pair(key@), keycol as nat, depth as nat), r, old(out)@, final(out)@),
    decreases 101 - depth, 1nat,
{
    let k = chars_of(key);
    let q = quote_key_chars(&k, keycol == 0)?;
    let ghost o = out@;
    push_spaces(out, keycol);
    extend(out, &q);
    let ghost pre = out@.skip(o.len() as int);
    assert(pre =~= spaces(keycol as nat) + q@);
    assert(out@ =~= o + pre);
    emit_value_after(node, keycol, depth, out, Ghost(o), Ghost(pre))
}

/// Emits what follows a pair's key `pre` (already written after `o`):
/// `{}`/`[]` for empty collections, an indented block for others, the
/// scalar's spelling on the same line.
fn emit_value_after(
    node: &Node,
    keycol: usize,
    depth: usize,
    out: &mut Vec<char>,
    Ghost(o): Ghost<Seq<char>>,
    Ghost(pre): Ghost<Seq<char>>,
) -> (r: Result<(), SerializeError>)
    requires
        1 <= depth <= 100,
        keycol <= 4 * depth + 2,
        old(out)@ == o + pre,
        value_after(
            pre,
            node@,
            keycol as nat,
            if node@ is Scalar {
                None
            } else {
                ser(node@, nested_mode(node@), (keycol + 2) as nat, (depth + 1) as nat)
            },
        ) is Some,
    ensures
        emitted_as(
            value_after(
                pre,
                node@,
                keycol as nat,
                if node@ is Scalar {
                    None
                } else {
                    ser(node@, nested_mode(node@), (keycol + 2) as nat, (depth + 1) as nat)
                },
            ),
            r,
            o,
            final(out)@,
        ),
    decreases 101 - depth, 0nat,
{
    match node {
        Node::Mapping(m2) => {
            if m2.is_empty() {
                extend_str(out, ": {}\n");
                assert(out@ =~= o + (pre + ": {}\n"@));
            } else {
                extend_str(out, ":\n");
                let ghost mid = out@;
                let ghost nested = ser(node@, nested_mode(node@), (keycol + 2) as nat, (depth + 1) as nat);
                assert(nested is Some);
                let res = emit_map(m2, keycol + 2, depth + 1, out);
                if res.is_err() {
                    return res;
                }
                proof {
                    let t = out@.skip(mid.len() as int);
                    lemma_ok_step(nested, res, mid, out@);
                    assert(out@ =~= o + ((pre + ":\n"@) + t));
                }
            }
        },
        Node::List(items) => {
            proof {
                lemma_list_view(node, items);
            }
            if items.len() == 0 {
                extend_str(out, ": []\n");
                assert(out@ =~= o + (pre + ": []\n"@));
            } else {
                extend_str(out, ":\n");
                let ghost mid = out@;
                let ghost nested = ser(node@, nested_mode(node@), (keycol + 2) as nat, (depth + 1) as nat);
                assert(nested is Some);
                let res = emit_list(items, keycol + 2, depth + 1, out);
                if res.is_err() {
                    return res;
                }
                proof {
                    let t = out@.skip(mid.len() as int);
                    lemma_ok_step(nested, res, mid, out@);
                    assert(out@ =~= o + ((pre + ":\n"@) + t));
                }
            }
        },
        Node::Scalar(s) => {
            extend_str(out, ": ");
            let ghost mid = out@;
            write_scalar_value(s, keycol, keycol, out);
            let ghost t = out@.skip(mid.len() as int);
            assert(out@ =~= mid + t);
            extend_str(out, "\n");
            assert(out@ =~= o + (pre + ": "@ + t + "\n"@));
        },
    }
    Ok(())
}

/// Emits the first pair of a map list item right after its `- ` marker;
/// the key sits at column `keycol`.
fn emit_inline_pair(key: &str, node: &Node, keycol: usize, depth: usize, out: &mut Vec<char>) -> (r: Result<(), SerializeError>)
    requires
        1 <= depth <= 100,
        2 <= keycol <= 4 * depth + 2,
        ser(node@, Emit::Inline(key@), keycol as nat, depth as nat) is Some,
    ensures
        emitted_as(ser(node@, Emit::Inline(key@), keycol as nat, depth as nat), r, old(out)@, final(out)@),
    decreases 101 - depth, 1nat,
{
    let k = chars_of(key);
    let q = quote_key_chars(&k, false)?;
    let ghost o = out@;
    push_spaces(out, keycol - 2);
    extend_str(out, "- ");
    extend(out, &q);
    let ghost pre = out@.skip(o.len() as int);
    assert(pre =~= spaces((keycol - 2) as nat) + "- "@ + q@);
    assert(out@ =~= o + pre);
    emit_value_after(node, keycol, depth, out, Ghost(o), Ghost(pre))
}

/// Emits a list whose `-` markers sit at column `indent`; `depth` is the
/// nesting slot of its items.
fn emit_list(items: &Vec<Node>, indent: usize, depth: usize, out: &mut Vec<char>) -> (r: Result<(), SerializeError>)
    requires
        1 <= depth <= 101,
        indent <= 4 * depth,
        ser(list_view(items@), Emit::ListBody, indent as nat, depth as nat) is Some,
    ensures
        emitted_as(ser(list_view(items@), Emit::ListBody, indent as nat, depth as nat), r, old(out)@, final(out)@),
    decreases 101 - depth, 4nat,
{
    if depth > crate::MAX_DEPTH {
        return Err(SerializeError::new("nesting exceeds the maximum depth of 100"));
    }
    let ghost n = list_view(items@);
    let ghost total = ser(n, Emit::Items(0), indent as nat, depth as nat);
    let ghost mut acc: Seq<char> = Seq::empty();
    let mut k: usize = 0;
    assert(old(out)@ + acc =~= old(out)@);
    assert(total == then_emit(Some(Ok(acc)), ser(n, Emit::Items(0), indent as nat, depth as nat)));
    loop
        invariant
            k <= items@.len(),
            1 <= depth <= 100,
            indent <= 4 * depth,
            n == list_view(items@),
            total == ser(n, Emit::Items(0), indent as nat, depth as nat),
            total is Some,
            total == then_emit(Some(Ok(acc)), ser(n, Emit::Items(k as nat), indent as nat, depth as nat)),
            out@ == old(out)@ + acc,
        decreases items@.len() - k,
    {
        if k >= items.len() {
            assert(acc + Seq::<char>::empty() =~= acc);
            return Ok(());
        }
        let ghost rest = ser(n, Emit::Items((k + 1) as nat), indent as nat, depth as nat);
        let item = &items[k];
        assert(n->List_0[k as int] == item@);
        let ghost step = ser(item@, Emit::Item, indent as nat, depth as nat);
        assert(ser(n, Emit::Items(k as nat), indent as nat, depth as nat) == then_emit(step, rest));
        let ghost before = out@;
        assert(step is Some);
        let res = emit_item(item, indent, depth, out);
        if res.is_err() {
            return res;
        }
        proof {
            let t = out@.skip(before.len() as int);
            lemma_ok_step(step, res, before, out@);
            lemma_then_assoc(acc, t, rest);
            acc = acc + t;
            assert(out@ =~= old(out)@ + acc);
        }
        k += 1;
    }
}

/// Emits one list item whose `-` marker sits at column `indent`: a map
/// inlines its first pair after the marker, a nested list goes below a
/// bare `-`, a scalar follows `- `.
fn emit_item(item: &Node, indent: usize, depth: usize, out: &mut Vec<char>) -> (r: Result<(), SerializeError>)
    requires
        1 <= depth <= 100,
        indent <= 4 * depth,
        ser(item@, Emit::Item, indent as nat, depth as nat) is Some,
    ensures
        emitted_as(ser(item@, Emit::Item, indent as nat, depth as nat), r, old(out)@, final(out)@),
    decreases 101 - depth, 3nat,
{
    let ghost o = out@;
    match item {
        Node::Mapping(m) => {
            if m.is_empty() {
                push_spaces(out, indent);
                extend_str(out, "- {}\n");
                assert(out@ =~= o + (spaces(indent as nat) + "- {}\n"@));
                return Ok(());
            }
            // the map's keys sit one slot below the item
            if depth >= crate::MAX_DEPTH {
                return Err(SerializeError::new("nesting exceeds the maximum depth of 100"));
            }
            let keycol = indent + 2;
            let ghost first = ser(m@[0].1, Emit::Inline(m@[0].0), keycol as nat, (depth + 1) as nat);
            let ghost rest = ser(item@, Emit::Entries(1), keycol as nat, (depth + 1) as nat);
            assert(first is Some);
            let r1 = emit_inline_pair(m.key_at(0).as_str(), m.node_at(0), keycol, depth + 1, out);
            if r1.is_err() {
                return r1;
            }
            let ghost mid = out@;
            let ghost t = out@.skip(o.len() as int);
            proof {
                lemma_ok_step(first, r1, o, out@);
            }
            assert(rest is Some);
            let r2 = emit_entries(m, 1, keycol, depth + 1, out);
            if r2.is_err() {
                return r2;
            }
            proof {
                let u = out@.skip(mid.len() as int);
                lemma_ok_step(rest, r2, mid, out@);
                assert(out@ =~= o + (t + u));
            }
            Ok(())
        },
        Node::List(items2) => {
            proof {
                lemma_list_view(item, items2);
            }
            push_spaces(out, indent);
            if items2.len() == 0 {
                extend_str(out, "- []\n");
                assert(out@ =~= o + (spaces(indent as nat) + "- []\n"@));
                return Ok(());
            }
            extend_str(out, "-\n");
            let ghost mid = out@;
            let ghost nested = ser(item@, Emit::ListBody, (indent + 2) as nat, (depth + 1) as nat);
            assert(nested is Some);
            let res = emit_list(items2, indent + 2, depth + 1, out);
            if res.is_err() {
                return res;
            }
            proof {
                let u = out@.skip(mid.len() as int);
                lemma_ok_step(nested, res, mid, out@);
                assert(out@ =~= o + ((spaces(indent as nat) + "-\n"@) + u));
            }
            Ok(())
        },
        Node::Scalar(s) => {
            push_spaces(out, indent);
            extend_str(out, "- ");
            let ghost mid = out@;
            write_scalar_value(s, indent, indent + 2, out);
            let ghost t = out@.skip(mid.len() as int);
            assert(out@ =~= mid + t);
            extend_str(out, "\n");
            assert(out@ =~= o + (spaces(indent as nat) + "- "@ + t + "\n"@));
            Ok(())
        },
    }
}

/// Serializes a document to KVD text. The root must be a map; trees
/// nesting deeper than `MAX_DEPTH` are refused, since the output would not
/// parse back. What is written without error for a tree with distinct keys
/// and literals of their kind reads back (see `lemma_written_reads_back`),
/// and a well-formed document within the limit is written and reads back
/// as itself (see `lemma_parsed_document_round_trips`). Integer digits are
/// grouped by UTF-8 bytes; an integer whose grouping would cut inside a
/// character has no spelling and is left out by `requires`.
pub fn to_string(doc: &Node) -> (r: Result<String, SerializeError>)
    requires
        to_string_spec(doc@) is Some,
    ensures
        match to_string_spec(doc@) {
            Some(Ok(t)) => r matches Ok(s) && s@ == t,
            Some(Err(m)) => r matches Err(e) && e@ == m,
            None => true,
        },
{
    let mut out: Vec<char> = Vec::new();
    match doc {
        Node::Mapping(m) => {
            emit_map(m, 0, 1, &mut out)?;
            assert(out@ =~= Seq::<char>::empty() + out@);
        },
        _ => {
            return Err(SerializeError::new("document root must be a mapping"));
        },
    }
    Ok(string_of(&out))
}

} // verus!
