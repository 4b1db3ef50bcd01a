//! What the serializer writes on one line reads back as what it wrote:
//! a string value's spelling is one token that decodes to the string, and
//! a key's spelling is one path segment that names the key.
use vstd::prelude::*;
use crate::deserialize::{path_from, token_spec};
use crate::grammar::{
    index_of_either, is_alnum, lemma_index_of_either_prefix, spec_is_builtin_type, spec_is_key,
    spec_is_known_metakey, spec_is_metakey,
};
use crate::lexer::{dq_close, hex_val, is_hex, quoted_spec, unescape, EscFail};
use crate::serialize::{escape_char, escape_chars, escape_spec, hex_digit, key_spec_at, quote_key_spec, quote_str_spec};
use crate::value::{NodeV, ScalarV, Shape};

pub mod block;
pub mod ints;
pub mod nested;

verus! {

/// `s` in front of a decoding result.
pub open spec fn prepend(s: Seq<char>, r: Result<Seq<char>, EscFail>) -> Result<Seq<char>, EscFail> {
    match r {
        Ok(x) => Ok(s + x),
        Err(e) => Err(e),
    }
}

/// The escapes of a text, first character first.
proof fn lemma_escape_chars_first(s: Seq<char>)
    requires
        s.len() > 0,
    ensures
        escape_chars(s) == escape_char(s[0]) + escape_chars(s.drop_first()),
    decreases s.len(),
{
    if s.len() == 1 {
        assert(s.drop_last() =~= Seq::<char>::empty());
        assert(s.drop_first() =~= Seq::<char>::empty());
        assert(escape_chars(s.drop_last()) == Seq::<char>::empty());
        assert(escape_chars(s.drop_first()) == Seq::<char>::empty());
        assert(escape_char(s[0]) + Seq::<char>::empty() =~= escape_char(s[0]));
        assert(Seq::<char>::empty() + escape_char(s.last()) =~= escape_char(s[0]));
    } else {
        lemma_escape_chars_first(s.drop_last());
        assert(s.drop_last().drop_first() =~= s.drop_first().drop_last());
        assert(s.drop_first().last() == s.last());
        assert(s.drop_last()[0] == s[0]);
        assert((escape_char(s[0]) + escape_chars(s.drop_last().drop_first())) + escape_char(s.last())
            =~= escape_char(s[0]) + (escape_chars(s.drop_first().drop_last()) + escape_char(
            s.drop_first().last(),
        )));
    }
}

/// A hex digit's value is the number it was written for.
proof fn lemma_hex_digit(d: nat)
    requires
        d < 16,
    ensures
        is_hex(hex_digit(d)),
        hex_val(hex_digit(d)) == d,
        hex_digit(d) != '"',
        hex_digit(d) != '\\',
{
}

/// What one character is escaped to, spelled out.
proof fn lemma_escape_char_shape(c: char)
    ensures
        c == '"' ==> escape_char(c) == seq!['\\', '"'],
        c == '\\' ==> escape_char(c) == seq!['\\', '\\'],
        c == '\n' ==> escape_char(c) == seq!['\\', 'n'],
        c == '\t' ==> escape_char(c) == seq!['\\', 't'],
        c != '"' && c != '\\' && c != '\n' && c != '\t' && ((c as u32) < 0x20 || (c as u32) == 0x7f)
            ==> escape_char(c) == seq![
            '\\',
            'u',
            '0',
            '0',
            hex_digit((c as u32 / 16) as nat),
            hex_digit((c as u32 % 16) as nat),
        ],
        !(c == '"' || c == '\\' || c == '\n' || c == '\t' || (c as u32) < 0x20 || (c as u32) == 0x7f)
            ==> escape_char(c) == seq![c],
{
    reveal_strlit("\\\"");
    reveal_strlit("\\\\");
    reveal_strlit("\\n");
    reveal_strlit("\\t");
    reveal_strlit("\\u00");
    if c == '"' {
        assert(escape_char(c) =~= seq!['\\', '"']);
    } else if c == '\\' {
        assert(escape_char(c) =~= seq!['\\', '\\']);
    } else if c == '\n' {
        assert(escape_char(c) =~= seq!['\\', 'n']);
    } else if c == '\t' {
        assert(escape_char(c) =~= seq!['\\', 't']);
    } else if (c as u32) < 0x20 || (c as u32) == 0x7f {
        assert(escape_char(c) =~= seq![
            '\\',
            'u',
            '0',
            '0',
            hex_digit((c as u32 / 16) as nat),
            hex_digit((c as u32 % 16) as nat),
        ]);
    }
}

/// A decoding fault found `n` characters further on.
pub open spec fn shift_fail(f: EscFail, n: int) -> EscFail {
    match f {
        EscFail::Unterminated => EscFail::Unterminated,
        EscFail::BadHex(k) => EscFail::BadHex(k + n),
        EscFail::Surrogate(k) => EscFail::Surrogate(k + n),
        EscFail::Unknown(k, c) => EscFail::Unknown(k + n, c),
    }
}

/// A decoding result whose fault, if any, lies `n` characters further on.
pub open spec fn shifted(r: Result<Seq<char>, EscFail>, n: int) -> Result<Seq<char>, EscFail> {
    match r {
        Ok(x) => Ok(x),
        Err(f) => Err(shift_fail(f, n)),
    }
}

/// Decoding only reads the text from where it starts.
proof fn lemma_unescape_shift(p: Seq<char>, w: Seq<char>, j: int)
    requires
        0 <= j,
    ensures
        unescape(p + w, p.len() + j) == shifted(unescape(w, j), p.len() as int),
    decreases w.len() - j,
{
    let t = p + w;
    let i = p.len() + j;
    if j < w.len() {
        assert(t[i] == w[j]);
        if w[j] != '\\' {
            lemma_unescape_shift(p, w, j + 1);
        } else if j + 1 < w.len() {
            assert(t[i + 1] == w[j + 1]);
            lemma_unescape_shift(p, w, j + 2);
            if j + 6 <= w.len() {
                assert(t[i + 2] == w[j + 2]);
                assert(t[i + 3] == w[j + 3]);
                assert(t[i + 4] == w[j + 4]);
                assert(t[i + 5] == w[j + 5]);
                lemma_unescape_shift(p, w, j + 6);
            }
        }
    }
}

/// Decoding one escaped character yields that character.
proof fn lemma_unescape_one(c: char, rest: Seq<char>)
    ensures
        unescape(escape_char(c) + rest, 0) == prepend(
            seq![c],
            unescape(escape_char(c) + rest, escape_char(c).len() as int),
        ),
{
    let e = escape_char(c);
    let t = e + rest;
    lemma_escape_char_shape(c);
    assert(t[0] == e[0]);
    if c == '"' || c == '\\' || c == '\n' || c == '\t' {
        assert(t[1] == e[1]);
    } else if (c as u32) < 0x20 || (c as u32) == 0x7f {
        let hi = (c as u32 / 16) as nat;
        let lo = (c as u32 % 16) as nat;
        lemma_hex_digit(hi);
        lemma_hex_digit(lo);
        assert(t[1] == 'u');
        assert(t[2] == '0');
        assert(t[3] == '0');
        assert(t[4] == hex_digit(hi));
        assert(t[5] == hex_digit(lo));
        assert(hex_val(t[2]) * 4096 + hex_val(t[3]) * 256 + hex_val(t[4]) * 16 + hex_val(t[5]) == c as u32);
    }
}

/// Decoding an escaped text gives the text back.
proof fn lemma_unescape_escaped(s: Seq<char>)
    ensures
        unescape(escape_chars(s), 0) == Ok::<Seq<char>, EscFail>(s),
    decreases s.len(),
{
    if s.len() == 0 {
        assert(escape_chars(s) =~= Seq::<char>::empty());
        assert(s =~= Seq::<char>::empty());
    } else {
        lemma_escape_chars_first(s);
        let e = escape_char(s[0]);
        let rest = escape_chars(s.drop_first());
        lemma_unescape_escaped(s.drop_first());
        lemma_unescape_shift(e, rest, 0);
        lemma_unescape_one(s[0], rest);
        assert(escape_chars(s) == e + rest);
        assert(unescape(e + rest, e.len() as int) == Ok::<Seq<char>, EscFail>(s.drop_first()));
        assert(seq![s[0]] + s.drop_first() =~= s);
    }
}

/// The closing-quote scan only reads the text from where it starts.
proof fn lemma_dq_close_shift(p: Seq<char>, w: Seq<char>, j: int)
    requires
        0 <= j,
    ensures
        dq_close(p + w, p.len() + j) == match dq_close(w, j) {
            Some(k) => Some(k + p.len()),
            None => None::<int>,
        },
    decreases w.len() - j,
{
    let t = p + w;
    let i = p.len() + j;
    if j < w.len() {
        assert(t[i] == w[j]);
        if w[j] == '\\' {
            if j + 1 < w.len() {
                lemma_dq_close_shift(p, w, j + 2);
            }
        } else if w[j] != '"' {
            lemma_dq_close_shift(p, w, j + 1);
        }
    }
}

/// The closing-quote scan passes over an escaped text.
proof fn lemma_dq_close_escaped(s: Seq<char>, w: Seq<char>)
    ensures
        dq_close(escape_chars(s) + w, 0) == match dq_close(w, 0) {
            Some(k) => Some(k + escape_chars(s).len()),
            None => None::<int>,
        },
    decreases s.len(),
{
    if s.len() == 0 {
        assert(escape_chars(s) + w =~= w);
    } else {
        lemma_escape_chars_first(s);
        let c = s[0];
        let e = escape_char(c);
        let rest = escape_chars(s.drop_first()) + w;
        let t = e + rest;
        assert(escape_chars(s) + w =~= t);
        lemma_dq_close_escaped(s.drop_first(), w);
        lemma_dq_close_shift(e, rest, 0);
        lemma_escape_char_shape(c);
        assert(t[0] == e[0]);
        if c == '"' || c == '\\' || c == '\n' || c == '\t' {
            assert(dq_close(t, 0) == dq_close(t, 2));
        } else if (c as u32) < 0x20 || (c as u32) == 0x7f {
            let hi = (c as u32 / 16) as nat;
            let lo = (c as u32 % 16) as nat;
            lemma_hex_digit(hi);
            lemma_hex_digit(lo);
            assert(t[2] == '0');
            assert(t[3] == '0');
            assert(t[4] == hex_digit(hi));
            assert(t[5] == hex_digit(lo));
            assert(dq_close(t, 5) == dq_close(t, 6));
            assert(dq_close(t, 4) == dq_close(t, 6));
            assert(dq_close(t, 3) == dq_close(t, 6));
            assert(dq_close(t, 2) == dq_close(t, 6));
            assert(dq_close(t, 0) == dq_close(t, 6));
        } else {
            assert(dq_close(t, 0) == dq_close(t, 1));
        }
    }
}

/// A word that starts with a lowercase letter other than `e` is no number.
proof fn lemma_word_is_no_number(s: Seq<char>)
    requires
        s.len() > 0,
        crate::grammar::is_lower(s[0]),
        s[0] != 'e',
    ensures
        !crate::grammar::spec_is_int(s),
        !crate::grammar::spec_is_float(s),
{
    assert(crate::grammar::strip_sign(s) == s);
    let k = index_of_either(s, 'e', 'E');
    assert(k == 1 + index_of_either(s.drop_first(), 'e', 'E'));
    crate::grammar::lemma_index_of_either_bounds(s.drop_first(), 'e', 'E');
    let m = s.take(k);
    assert(m[0] == s[0]);
    let p = index_of_either(m, '.', '.');
    assert(p == 1 + index_of_either(m.drop_first(), '.', '.'));
    crate::grammar::lemma_index_of_either_bounds(m.drop_first(), '.', '.');
    if p < m.len() {
        assert(m.take(p)[0] == s[0]);
    }
}

/// A double-quoted spelling reads back as the text it escapes, and ends
/// where the spelling ends, whatever follows it.
proof fn lemma_escape_spec_reads_back(s: Seq<char>, w: Seq<char>, line: nat, col: nat)
    ensures
        quoted_spec(escape_spec(s) + w, line, col) == Ok::<(Seq<char>, int), crate::lexer::ErrV>(
            (s, escape_spec(s).len() as int),
        ),
{
    let q = seq!['"'];
    let body = escape_chars(s);
    let tok = escape_spec(s) + w;
    reveal_strlit("\"");
    assert("\""@ =~= q);
    assert(tok =~= q + (body + (q + w)));
    lemma_dq_close_shift(q, body + (q + w), 0);
    lemma_dq_close_escaped(s, q + w);
    assert(dq_close(q + w, 0) == Some(0int));
    assert(dq_close(tok, 1) == Some(body.len() + 1int));
    assert(tok.subrange(1, body.len() + 1 as int) =~= body);
    lemma_unescape_escaped(s);
}

/// Every string value the serializer writes on one line is a single value
/// token that reads back as the same string (with the spelling as its raw
/// token).
pub proof fn lemma_string_token_reads_back(s: Seq<char>, line: nat, col: nat)
    ensures
        token_spec(quote_str_spec(s), line, col) == Ok::<NodeV, crate::lexer::ErrV>(
            NodeV::Scalar(ScalarV { shape: Shape::Str, text: s, raw: quote_str_spec(s) }),
        ),
{
    if s.len() == 0 {
        assert(escape_chars(s) =~= Seq::<char>::empty());
        reveal_strlit("\"\"");
        reveal_strlit("\"");
        assert(quote_str_spec(s) =~= escape_spec(s));
        lemma_escape_spec_reads_back(s, Seq::empty(), line, col);
        assert(escape_spec(s) + Seq::<char>::empty() =~= escape_spec(s));
    } else if crate::grammar::spec_is_bare_type(s) {
        reveal_strlit("dict");
        reveal_strlit("int");
        reveal_strlit("float");
        reveal_strlit("bool");
        reveal_strlit("str");
        reveal_strlit("list");
        reveal_strlit("map");
        reveal_strlit("{}");
        reveal_strlit("[]");
        reveal_strlit("true");
        reveal_strlit("false");
        reveal_strlit("null");
        lemma_word_is_no_number(s);
    } else {
        lemma_escape_spec_reads_back(s, Seq::empty(), line, col);
        assert(escape_spec(s) + Seq::<char>::empty() =~= escape_spec(s));
    }
}

/// Every key the serializer writes reads back as that key: its spelling
/// at the root or below it, followed by `:`, is a one-segment path naming
/// exactly the key. The one known metakey is written bare only at the
/// root, where the reader takes it bare; below the root it is quoted.
pub proof fn lemma_key_reads_back(k: Seq<char>, rest: Seq<char>, line: nat, base: nat, root: bool)
    requires
        k.len() > 0,
    ensures
        key_spec_at(k, root) matches Ok(q) && path_from(q.push(':') + rest, 0, Seq::empty(), line, base, root)
            == Ok::<Option<(Seq<Seq<char>>, int)>, crate::lexer::ErrV>(Some((seq![k], q.len() + 1int))),
{
    reveal_strlit("__schema__");
    let bare = spec_is_key(k) || (root && spec_is_known_metakey(k));
    let q = if bare {
        k
    } else {
        escape_spec(k)
    };
    assert(key_spec_at(k, root) == Ok::<Seq<char>, Seq<char>>(q));
    let s = q.push(':') + rest;
    assert(s[q.len() as int] == ':');
    if bare {
        assert forall|j: int| 0 <= j < k.len() implies s[j] != '.' && s[j] != ':' by {
            assert(s[j] == k[j]);
            if spec_is_key(k) {
                assert(crate::grammar::is_key_char(k[j]));
            }
        }
        lemma_index_of_either_prefix(s, '.', ':', k.len() as int);
        assert(s.skip(k.len() as int)[0] == ':');
        assert(index_of_either(s.skip(k.len() as int), '.', ':') == 0);
        assert(s.skip(0) =~= s);
        assert(s.subrange(0, k.len() as int) =~= k);
        if spec_is_key(k) {
            assert(is_alnum(k[0]));
            assert(!spec_is_metakey(k));
        }
        assert(s[0] == k[0]);
    } else {
        lemma_escape_spec_reads_back(k, seq![':'] + rest, line, base);
        assert(s =~= escape_spec(k) + (seq![':'] + rest));
        assert(s.skip(0) =~= s);
        reveal_strlit("\"");
        assert(s[0] == '"');
    }
}


/// Inside a double-quoted string, the comment scan passes over an escaped
/// text and stays inside the string.
proof fn lemma_cut_comment_escaped(p: Seq<char>, s: Seq<char>, w: Seq<char>)
    ensures
        crate::lexer::cut_comment(p + escape_chars(s) + w, p.len() as int, true, false)
            == crate::lexer::cut_comment(p + escape_chars(s) + w, (p.len() + escape_chars(s).len()) as int, true, false),
    decreases s.len(),
{
    if s.len() == 0 {
        assert(escape_chars(s) =~= Seq::<char>::empty());
    } else {
        lemma_escape_chars_first(s);
        let c = s[0];
        let e = escape_char(c);
        let rest = escape_chars(s.drop_first());
        let t = p + escape_chars(s) + w;
        assert(t =~= (p + e) + rest + w);
        lemma_cut_comment_escaped(p + e, s.drop_first(), w);
        lemma_escape_char_shape(c);
        let i = p.len() as int;
        assert(t[i] == e[0]);
        if c == '"' || c == '\\' || c == '\n' || c == '\t' {
            assert(t[i + 1] == e[1]);
            assert(crate::lexer::cut_comment(t, i + 1, true, true) == crate::lexer::cut_comment(t, i + 2, true, false));
            assert(crate::lexer::cut_comment(t, i, true, false) == crate::lexer::cut_comment(t, i + 2, true, false));
        } else if (c as u32) < 0x20 || (c as u32) == 0x7f {
            let hi = (c as u32 / 16) as nat;
            let lo = (c as u32 % 16) as nat;
            lemma_hex_digit(hi);
            lemma_hex_digit(lo);
            assert(t[i + 1] == 'u');
            assert(t[i + 2] == '0');
            assert(t[i + 3] == '0');
            assert(t[i + 4] == hex_digit(hi));
            assert(t[i + 5] == hex_digit(lo));
            assert(crate::lexer::cut_comment(t, i + 5, true, false) == crate::lexer::cut_comment(t, i + 6, true, false));
            assert(crate::lexer::cut_comment(t, i + 4, true, false) == crate::lexer::cut_comment(t, i + 6, true, false));
            assert(crate::lexer::cut_comment(t, i + 3, true, false) == crate::lexer::cut_comment(t, i + 6, true, false));
            assert(crate::lexer::cut_comment(t, i + 2, true, false) == crate::lexer::cut_comment(t, i + 6, true, false));
            assert(crate::lexer::cut_comment(t, i + 1, true, true) == crate::lexer::cut_comment(t, i + 6, true, false));
            assert(crate::lexer::cut_comment(t, i, true, false) == crate::lexer::cut_comment(t, i + 6, true, false));
        } else {
            assert(crate::lexer::cut_comment(t, i, true, false) == crate::lexer::cut_comment(t, i + 1, true, false));
        }
    }
}

/// Inside a double-quoted string, the tab scan passes over an escaped text
/// and stays inside the string.
proof fn lemma_first_tab_escaped(p: Seq<char>, s: Seq<char>, w: Seq<char>)
    ensures
        crate::lexer::first_tab(p + escape_chars(s) + w, p.len() as int, true, false)
            == crate::lexer::first_tab(p + escape_chars(s) + w, (p.len() + escape_chars(s).len()) as int, true, false),
    decreases s.len(),
{
    if s.len() == 0 {
        assert(escape_chars(s) =~= Seq::<char>::empty());
    } else {
        lemma_escape_chars_first(s);
        let c = s[0];
        let e = escape_char(c);
        let rest = escape_chars(s.drop_first());
        let t = p + escape_chars(s) + w;
        assert(t =~= (p + e) + rest + w);
        lemma_first_tab_escaped(p + e, s.drop_first(), w);
        lemma_escape_char_shape(c);
        let i = p.len() as int;
        assert(t[i] == e[0]);
        if c == '"' || c == '\\' || c == '\n' || c == '\t' {
            assert(t[i + 1] == e[1]);
            assert(crate::lexer::first_tab(t, i + 1, true, true) == crate::lexer::first_tab(t, i + 2, true, false));
            assert(crate::lexer::first_tab(t, i, true, false) == crate::lexer::first_tab(t, i + 2, true, false));
        } else if (c as u32) < 0x20 || (c as u32) == 0x7f {
            let hi = (c as u32 / 16) as nat;
            let lo = (c as u32 % 16) as nat;
            lemma_hex_digit(hi);
            lemma_hex_digit(lo);
            assert(t[i + 1] == 'u');
            assert(t[i + 2] == '0');
            assert(t[i + 3] == '0');
            assert(t[i + 4] == hex_digit(hi));
            assert(t[i + 5] == hex_digit(lo));
            assert(crate::lexer::first_tab(t, i + 5, true, false) == crate::lexer::first_tab(t, i + 6, true, false));
            assert(crate::lexer::first_tab(t, i + 4, true, false) == crate::lexer::first_tab(t, i + 6, true, false));
            assert(crate::lexer::first_tab(t, i + 3, true, false) == crate::lexer::first_tab(t, i + 6, true, false));
            assert(crate::lexer::first_tab(t, i + 2, true, false) == crate::lexer::first_tab(t, i + 6, true, false));
            assert(crate::lexer::first_tab(t, i + 1, true, true) == crate::lexer::first_tab(t, i + 6, true, false));
            assert(crate::lexer::first_tab(t, i, true, false) == crate::lexer::first_tab(t, i + 6, true, false));
        } else {
            assert(crate::lexer::first_tab(t, i, true, false) == crate::lexer::first_tab(t, i + 1, true, false));
        }
    }
}


/// Outside strings, the comment and tab scans pass over characters that
/// are neither `#`, `"` nor a tab.
proof fn lemma_scan_plain(t: Seq<char>, i: int, j: int)
    requires
        0 <= i <= j <= t.len(),
        forall|k: int| i <= k < j ==> t[k] != '#' && t[k] != '"' && t[k] != '\t',
    ensures
        crate::lexer::cut_comment(t, i, false, false) == crate::lexer::cut_comment(t, j, false, false),
        crate::lexer::first_tab(t, i, false, false) == crate::lexer::first_tab(t, j, false, false),
    decreases j - i,
{
    if i < j {
        lemma_scan_plain(t, i + 1, j);
    }
}

/// A word written bare: characters that are neither `#`, `"`, a tab, a
/// newline, a space nor `-`.
pub open spec fn bare_word(w: Seq<char>) -> bool {
    &&& w.len() > 0
    &&& forall|k: int| 0 <= k < w.len() ==> crate::grammar::is_alnum(#[trigger] w[k]) || w[k] == '_' || (k > 0 && w[k] == '-')
}

/// A character of a number literal: a digit, a sign, `.`, `e`, `E` or `_`.
pub open spec fn num_char(c: char) -> bool {
    crate::grammar::is_digit(c) || c == '+' || c == '-' || c == '.' || c == 'e' || c == 'E' || c == '_'
}

/// A number literal as written: number characters ending in a digit.
pub open spec fn number_word(w: Seq<char>) -> bool {
    &&& w.len() > 0
    &&& crate::grammar::is_digit(w.last())
    &&& forall|k: int| 0 <= k < w.len() ==> num_char(#[trigger] w[k])
}

/// The underscore-grouped tail of an integer is digits and underscores,
/// ending in a digit.
proof fn lemma_grouped_tail_chars(x: Seq<char>)
    requires
        crate::grammar::grouped_tail(x),
    ensures
        forall|k: int| 0 <= k < x.len() ==> crate::grammar::is_digit(#[trigger] x[k]) || x[k] == '_',
        x.len() > 0 ==> crate::grammar::is_digit(x.last()),
    decreases x.len(),
{
    if x.len() > 0 {
        lemma_grouped_tail_chars(x.skip(4));
        assert forall|k: int| 0 <= k < x.len() implies crate::grammar::is_digit(#[trigger] x[k]) || x[k] == '_' by {
            if k >= 4 {
                assert(x[k] == x.skip(4)[k - 4]);
            }
        }
        if x.len() > 4 {
            assert(x.last() == x.skip(4).last());
        }
    }
}

/// Every integer literal is a number literal.
pub(crate) proof fn lemma_int_is_number(t: Seq<char>)
    requires
        crate::grammar::spec_is_int(t),
    ensures
        number_word(t),
{
    let d = crate::grammar::strip_sign(t);
    let signed = t.len() > 0 && (t[0] == '+' || t[0] == '-');
    if crate::grammar::spec_plain_int(d) {
        assert(crate::grammar::all_digits(d));
    } else {
        let g = choose|g: int|
            1 <= g <= 3 && g < d.len() && crate::grammar::all_digits(#[trigger] d.take(g))
                && crate::grammar::grouped_tail(d.skip(g));
        lemma_grouped_tail_chars(d.skip(g));
        assert forall|k: int| 0 <= k < d.len() implies num_char(#[trigger] d[k]) by {
            if k < g {
                assert(d[k] == d.take(g)[k]);
            } else {
                assert(d[k] == d.skip(g)[k - g]);
            }
        }
        assert(d.last() == d.skip(g).last());
    }
    assert forall|k: int| 0 <= k < t.len() implies num_char(#[trigger] t[k]) by {
        if signed && k > 0 {
            assert(t[k] == d[k - 1]);
        } else if !signed {
            assert(t[k] == d[k]);
        }
    }
    assert(t.last() == d.last());
}

/// Every float literal is a number literal.
pub(crate) proof fn lemma_float_is_number(t: Seq<char>)
    requires
        crate::grammar::spec_is_float(t),
    ensures
        number_word(t),
{
    let d = crate::grammar::strip_sign(t);
    let signed = t.len() > 0 && (t[0] == '+' || t[0] == '-');
    let k = index_of_either(d, 'e', 'E');
    crate::grammar::lemma_index_of_either_bounds(d, 'e', 'E');
    let m = d.take(k);
    let p = index_of_either(m, '.', '.');
    crate::grammar::lemma_index_of_either_bounds(m, '.', '.');
    let x = d.skip(k + 1);
    assert forall|j: int| 0 <= j < d.len() implies num_char(#[trigger] d[j]) by {
        if j < k {
            assert(d[j] == m[j]);
            if p < m.len() {
                if j < p {
                    assert(crate::grammar::all_digits(m.take(p)));
                    assert(m[j] == m.take(p)[j]);
                } else if j > p {
                    assert(m[j] == m.skip(p + 1)[j - p - 1]);
                }
            } else {
                assert(crate::grammar::all_digits(m));
            }
        } else if j > k {
            assert(d[j] == x[j - k - 1]);
            let y = crate::grammar::strip_sign(x);
            if x.len() > 0 && (x[0] == '+' || x[0] == '-') {
                if j - k - 1 > 0 {
                    assert(x[j - k - 1] == y[j - k - 2]);
                }
            } else {
                assert(x[j - k - 1] == y[j - k - 1]);
            }
        }
    }
    if k < d.len() {
        let y = crate::grammar::strip_sign(x);
        assert(d.last() == x.last());
        assert(x.last() == y.last());
        assert(crate::grammar::is_digit(y[y.len() - 1]));
    } else {
        assert(m =~= d);
        assert(p < m.len());
        let f = m.skip(p + 1);
        assert(d.last() == f.last());
        assert(crate::grammar::is_digit(f[f.len() - 1]));
    }
    assert forall|j: int| 0 <= j < t.len() implies num_char(#[trigger] t[j]) by {
        if signed && j > 0 {
            assert(t[j] == d[j - 1]);
        } else if !signed {
            assert(t[j] == d[j]);
        }
    }
    assert(t.last() == d.last());
}

/// A token as the writer spells it on a line: a bare word, a number, or a
/// double-quoted escaped text.
pub open spec fn spelled(tok: Seq<char>) -> bool {
    bare_word(tok) || number_word(tok) || exists|s: Seq<char>| tok == escape_spec(s)
}

/// No newline is ever written inside an escaped text.
proof fn lemma_escape_no_newline(s: Seq<char>)
    ensures
        !escape_chars(s).contains('\n'),
    decreases s.len(),
{
    if s.len() > 0 {
        lemma_escape_chars_first(s);
        lemma_escape_no_newline(s.drop_first());
        lemma_escape_char_shape(s[0]);
        let e = escape_char(s[0]);
        if (s[0] as u32) < 0x20 || (s[0] as u32) == 0x7f {
            lemma_hex_digit((s[0] as u32 / 16) as nat);
            lemma_hex_digit((s[0] as u32 % 16) as nat);
        }
        assert forall|k: int| 0 <= k < e.len() implies e[k] != '\n' by {}
        assert forall|k: int| 0 <= k < escape_chars(s).len() implies escape_chars(s)[k] != '\n' by {
            if k < e.len() {
                assert(escape_chars(s)[k] == e[k]);
            } else {
                assert(escape_chars(s)[k] == escape_chars(s.drop_first())[k - e.len()]);
            }
        }
    }
}

/// The scans pass over a spelled token outside strings, ending outside.
proof fn lemma_scan_spelled(p: Seq<char>, tok: Seq<char>, w: Seq<char>)
    requires
        spelled(tok),
    ensures
        crate::lexer::cut_comment(p + tok + w, p.len() as int, false, false) == crate::lexer::cut_comment(
            p + tok + w,
            (p.len() + tok.len()) as int,
            false,
            false,
        ),
        crate::lexer::first_tab(p + tok + w, p.len() as int, false, false) == crate::lexer::first_tab(
            p + tok + w,
            (p.len() + tok.len()) as int,
            false,
            false,
        ),
{
    let t = p + tok + w;
    if bare_word(tok) || number_word(tok) {
        assert forall|k: int| p.len() <= k < p.len() + tok.len() implies t[k] != '#' && t[k] != '"' && t[k]
            != '\t' by {
            assert(t[k] == tok[k - p.len()]);
            if number_word(tok) {
                assert(num_char(tok[k - p.len()]));
            }
        }
        lemma_scan_plain(t, p.len() as int, (p.len() + tok.len()) as int);
    } else {
        let s = choose|s: Seq<char>| tok == escape_spec(s);
        reveal_strlit("\"");
        let q = seq!['"'];
        let body = escape_chars(s);
        assert(tok =~= q + body + q);
        assert(t =~= (p + q) + body + (q + w));
        lemma_cut_comment_escaped(p + q, s, q + w);
        lemma_first_tab_escaped(p + q, s, q + w);
        let i = p.len() as int;
        assert(t[i] == '"');
        assert(t[i + 1 + body.len()] == '"');
    }
}


/// How the writer spells a key: bare when it is a bare key, or the known
/// metakey at the root; double-quoted otherwise.
pub open spec fn key_spelling(k: Seq<char>, root: bool) -> Seq<char> {
    if spec_is_key(k) || (root && spec_is_known_metakey(k)) {
        k
    } else {
        escape_spec(k)
    }
}

/// A scalar the writer puts on its key's line and the reader reads back
/// with the same shape and, but for an integer's grouping and the text of
/// a null, the same text: a string not written as a block, a boolean,
/// null, a float literal or an integer literal.
pub open spec fn one_line_scalar(s: ScalarV) -> bool {
    ||| (s.shape == Shape::Str && !crate::serialize::as_block(s.text))
    ||| (s.shape == Shape::Bool && (s.text == "true"@ || s.text == "false"@))
    ||| (s.shape == Shape::Null)
    ||| (s.shape == Shape::Int && crate::grammar::spec_is_int(s.text))
    ||| (s.shape == Shape::Float && crate::grammar::spec_is_float(s.text) && !crate::grammar::spec_is_int(s.text))
}

/// How the writer spells such a scalar.
pub open spec fn value_spelling(s: ScalarV) -> Seq<char> {
    if s.shape == Shape::Str {
        quote_str_spec(s.text)
    } else if s.shape == Shape::Null {
        "null"@
    } else if s.shape == Shape::Int {
        match crate::serialize::int_spec(s.text) {
            Some(g) => g,
            None => s.text,
        }
    } else {
        s.text
    }
}

/// The line the writer writes for a root entry `k: s`.
pub open spec fn flat_line(k: Seq<char>, s: ScalarV, root: bool) -> Seq<char> {
    key_spelling(k, root) + seq![':', ' '] + value_spelling(s)
}

/// A scalar as the reader reads back the writer's spelling of it: an
/// integer as the writer groups it, a null as `null`, any other text as
/// it was.
pub open spec fn read_value(s: ScalarV) -> NodeV {
    NodeV::Scalar(
        ScalarV {
            shape: s.shape,
            text: if s.shape == Shape::Int || s.shape == Shape::Null {
                value_spelling(s)
            } else {
                s.text
            },
            raw: value_spelling(s),
        },
    )
}

/// How the writer spells a one-line scalar is a spelled token that does
/// not open a `"""` block.
proof fn lemma_value_spelled(s: ScalarV)
    requires
        one_line_scalar(s),
    ensures
        spelled(value_spelling(s)),
        value_spelling(s).len() > 0,
        value_spelling(s)[0] != ' ',
        !(value_spelling(s).len() >= 3 && value_spelling(s)[0] == '"' && value_spelling(s)[1] == '"'),
{
    reveal_strlit("\"");
    reveal_strlit("\"\"");
    reveal_strlit("true");
    reveal_strlit("false");
    reveal_strlit("null");
    reveal_strlit("int");
    reveal_strlit("float");
    reveal_strlit("bool");
    reveal_strlit("str");
    reveal_strlit("list");
    reveal_strlit("map");
    let v = value_spelling(s);
    if s.shape == Shape::Str {
        lemma_escape_no_newline(s.text);
        if s.text.len() == 0 {
            assert(escape_chars(s.text) =~= Seq::<char>::empty());
            assert(v =~= escape_spec(s.text));
        } else if crate::grammar::spec_is_bare_type(s.text) {
            reveal_strlit("dict");
            assert(bare_word(v));
        } else {
            assert(v == escape_spec(s.text));
            lemma_escape_chars_first(s.text);
            lemma_escape_char_shape(s.text[0]);
            assert(v[1] == escape_chars(s.text)[0]);
        }
    } else if s.shape == Shape::Int {
        ints::lemma_int_spec_facts(s.text);
        lemma_int_is_number(v);
    } else if s.shape == Shape::Float {
        lemma_float_is_number(s.text);
    } else {
        assert(bare_word(v));
    }
}

/// What is known of one written line.
proof fn lemma_line_facts(k: Seq<char>, s: ScalarV, root: bool)
    requires
        k.len() > 0,
        one_line_scalar(s),
    ensures
        spelled(key_spelling(k, root)),
        spelled(value_spelling(s)),
        value_spelling(s).len() > 0,
        value_spelling(s)[0] != ' ',
        !(value_spelling(s).len() >= 3 && value_spelling(s)[0] == '"' && value_spelling(s)[1] == '"'),
        !flat_line(k, s, root).contains('\n'),
        flat_line(k, s, root).len() > 0,
        flat_line(k, s, root)[0] != ' ',
        flat_line(k, s, root)[0] != '-',
        crate::lexer::stripped(flat_line(k, s, root)) == flat_line(k, s, root),
        crate::lexer::cut_comment(flat_line(k, s, root), 0, false, false) == flat_line(k, s, root).len(),
        !crate::lexer::is_ws(flat_line(k, s, root).last()),
        crate::lexer::first_tab(flat_line(k, s, root), 0, false, false) is None,
        crate::deserialize::lead_spaces(flat_line(k, s, root)) == 0,
{
    reveal_strlit("__schema__");
    reveal_strlit("\"");
    reveal_strlit("\"\"");
    reveal_strlit("true");
    reveal_strlit("false");
    reveal_strlit("null");
    reveal_strlit("int");
    reveal_strlit("float");
    reveal_strlit("bool");
    reveal_strlit("str");
    reveal_strlit("list");
    reveal_strlit("map");
    let ks = key_spelling(k, root);
    let v = value_spelling(s);
    let l = flat_line(k, s, root);
    // the key's spelling
    if spec_is_key(k) {
        assert forall|j: int| 0 <= j < k.len() implies crate::grammar::is_alnum(#[trigger] k[j]) || k[j] == '_'
            || (j > 0 && k[j] == '-') by {
            assert(crate::grammar::is_key_char(k[j]));
        }
        assert(bare_word(ks));
    } else if root && spec_is_known_metakey(k) {
        assert(bare_word(ks));
    } else {
        assert(ks == escape_spec(k));
    }
    lemma_escape_no_newline(k);
    lemma_value_spelled(s);
    assert(spelled(ks));
    assert(spelled(v));
    // scanning the line
    let colon = seq![':', ' '];
    assert(l =~= Seq::<char>::empty() + ks + (colon + v));
    lemma_scan_spelled(Seq::<char>::empty(), ks, colon + v);
    assert(l =~= (ks + colon) + v + Seq::<char>::empty());
    lemma_scan_spelled(ks + colon, v, Seq::<char>::empty());
    assert(l[ks.len() as int] == ':');
    assert(l[ks.len() + 1int] == ' ');
    lemma_scan_plain(l, ks.len() as int, ks.len() + 2int);
    assert(crate::lexer::cut_comment(l, 0, false, false) == l.len());
    assert(l.last() == v.last());
    assert(!crate::lexer::is_ws(l.last()));
    assert(crate::lexer::trim_end_len(l, l.len() as int) == l.len());
    assert(l.take(l.len() as int) =~= l);
    assert forall|j: int| 0 <= j < l.len() implies l[j] != '\n' by {
        if j < ks.len() {
            assert(l[j] == ks[j]);
            if !bare_word(ks) {
                assert(ks == escape_spec(k));
                if 0 < j < ks.len() - 1 {
                    assert(ks[j] == escape_chars(k)[j - 1]);
                }
            }
        } else if j >= ks.len() + 2 {
            assert(l[j] == v[j - ks.len() - 2]);
            if number_word(v) {
                assert(num_char(v[j - ks.len() - 2]));
            } else if !bare_word(v) {
                let t = choose|t: Seq<char>| v == escape_spec(t);
                lemma_escape_no_newline(t);
                if 0 < j - ks.len() - 2 < v.len() - 1 {
                    assert(v[j - ks.len() - 2] == escape_chars(t)[j - ks.len() - 3]);
                }
            }
        }
    }
    assert(l[0] == ks[0]);
}


/// A character spelled with its one-letter escape where it has one
/// (newline, tab, backslash, double and single quote), as itself
/// otherwise.
pub open spec fn named_escape(c: char) -> Seq<char> {
    if c == '\n' {
        seq!['\\', 'n']
    } else if c == '\t' {
        seq!['\\', 't']
    } else if c == '\\' {
        seq!['\\', '\\']
    } else if c == '"' {
        seq!['\\', '"']
    } else if c == '\'' {
        seq!['\\', '\'']
    } else {
        seq![c]
    }
}

/// A text with every character spelled by `named_escape`.
pub open spec fn named_escapes(s: Seq<char>) -> Seq<char>
    decreases s.len(),
{
    if s.len() == 0 {
        Seq::empty()
    } else {
        named_escape(s[0]) + named_escapes(s.drop_first())
    }
}

/// One decoding step turns each one-letter escape into the character it
/// names (`\n` newline, `\t` tab, `\\` backslash, `\"` double quote, `\'`
/// single quote) and any other character into itself, reading exactly
/// that spelling, whatever follows it.
pub proof fn lemma_esc_step_named(c: char, w: Seq<char>)
    ensures
        crate::lexer::esc_step(named_escape(c) + w, 0) == Ok::<(char, int), EscFail>((c, named_escape(c).len() as int)),
{
    let e = named_escape(c);
    let t = e + w;
    assert(t[0] == e[0]);
    if e.len() == 2 {
        assert(t[1] == e[1]);
    }
}

/// Decoding a text spelled with the one-letter escapes gives the text
/// back.
pub proof fn lemma_unescape_named(s: Seq<char>)
    ensures
        unescape(named_escapes(s), 0) == Ok::<Seq<char>, EscFail>(s),
    decreases s.len(),
{
    if s.len() == 0 {
        assert(named_escapes(s) =~= Seq::<char>::empty());
        assert(s =~= Seq::<char>::empty());
    } else {
        let c = s[0];
        let e = named_escape(c);
        let rest = named_escapes(s.drop_first());
        let t = e + rest;
        assert(named_escapes(s) == t);
        lemma_unescape_named(s.drop_first());
        lemma_unescape_shift(e, rest, 0);
        assert(unescape(t, e.len() as int) == Ok::<Seq<char>, EscFail>(s.drop_first()));
        assert(t[0] == e[0]);
        if e.len() == 2 {
            assert(t[1] == e[1]);
            assert(unescape(t, 0) == Ok::<Seq<char>, EscFail>(seq![c] + s.drop_first()));
        } else {
            assert(c != '\\');
            assert(unescape(t, 0) == Ok::<Seq<char>, EscFail>(seq![c] + s.drop_first()));
        }
        assert(seq![c] + s.drop_first() =~= s);
    }
}

} // verus!
