//! Line-level lexical rules of the KVD text format: comments, tabs,
//! trailing whitespace, escapes and quoted strings.
use vstd::prelude::*;
use crate::error::{Error, ErrorKind};
use crate::text::{bytes_len, bytes_len_range, char_from_u32, extend, extend_str, utf8_len};

verus! {

/// Bound on the length of any text the parser handles, leaving room for
/// column arithmetic.
pub open spec fn text_limit() -> nat {
    (usize::MAX / 8) as nat
}

/// Where a comment starts in `s` scanning from `i` with the given string
/// state: the first `#` outside a double-quoted string, or `s.len()`.
pub open spec fn cut_comment(s: Seq<char>, i: int, in_dq: bool, esc: bool) -> int
    decreases s.len() - i,
{
    if i >= s.len() || i < 0 {
        s.len() as int
    } else if in_dq {
        if s[i] == '\\' {
            cut_comment(s, i + 1, true, !esc)
        } else if s[i] == '"' && !esc {
            cut_comment(s, i + 1, false, esc)
        } else {
            cut_comment(s, i + 1, true, false)
        }
    } else if s[i] == '#' {
        i
    } else if s[i] == '"' {
        cut_comment(s, i + 1, true, esc)
    } else {
        cut_comment(s, i + 1, false, esc)
    }
}

/// The first tab outside a double-quoted string in `s` from `i`.
pub open spec fn first_tab(s: Seq<char>, i: int, in_dq: bool, esc: bool) -> Option<int>
    decreases s.len() - i,
{
    if i >= s.len() || i < 0 {
        None
    } else if in_dq {
        if s[i] == '\\' {
            first_tab(s, i + 1, true, !esc)
        } else if s[i] == '"' && !esc {
            first_tab(s, i + 1, false, esc)
        } else {
            first_tab(s, i + 1, true, false)
        }
    } else if s[i] == '\t' {
        Some(i)
    } else if s[i] == '"' {
        first_tab(s, i + 1, true, esc)
    } else {
        first_tab(s, i + 1, false, esc)
    }
}

/// Unicode `White_Space` (what `char::is_whitespace` tests).
pub open spec fn is_ws(c: char) -> bool {
    c == ' ' || ('\t' <= c <= '\r') || c == '\u{85}' || c == '\u{a0}' || c == '\u{1680}' || (
    '\u{2000}' <= c <= '\u{200a}') || c == '\u{2028}' || c == '\u{2029}' || c == '\u{202f}' || c
        == '\u{205f}' || c == '\u{3000}'
}

/// Length of `s.take(n)` without trailing whitespace.
pub open spec fn trim_end_len(s: Seq<char>, n: int) -> int
    decreases n,
{
    if n > 0 && n <= s.len() && is_ws(s[n - 1]) {
        trim_end_len(s, n - 1)
    } else {
        n
    }
}

/// The comment-stripped, right-trimmed form of a line's content.
pub open spec fn stripped(rest: Seq<char>) -> Seq<char> {
    rest.take(trim_end_len(rest, cut_comment(rest, 0, false, false)))
}

/// Whether `c` is an ASCII hex digit.
pub open spec fn is_hex(c: char) -> bool {
    ('0' <= c <= '9') || ('a' <= c <= 'f') || ('A' <= c <= 'F')
}

/// The value of a hex digit.
pub open spec fn hex_val(c: char) -> nat {
    if '0' <= c <= '9' {
        (c as u32 - '0' as u32) as nat
    } else if 'a' <= c <= 'f' {
        (c as u32 - 'a' as u32 + 10) as nat
    } else {
        (c as u32 - 'A' as u32 + 10) as nat
    }
}

/// Why an escape sequence is invalid: the character index of the
/// character after the backslash, and the fault.
pub enum EscFail {
    /// A backslash ends the text.
    Unterminated,
    /// `\u` not followed by four hex digits.
    BadHex(int),
    /// `\u` naming a surrogate code point.
    Surrogate(int),
    /// An unknown escape letter.
    Unknown(int, char),
}

/// The text with escapes `\n \t \\ \" \' \uXXXX` decoded, from index `i`.
pub open spec fn unescape(t: Seq<char>, i: int) -> Result<Seq<char>, EscFail>
    decreases t.len() - i,
{
    if i < 0 || i >= t.len() {
        Ok(Seq::empty())
    } else if t[i] != '\\' {
        match unescape(t, i + 1) {
            Ok(r) => Ok(seq![t[i]] + r),
            Err(e) => Err(e),
        }
    } else if i + 1 >= t.len() {
        Err(EscFail::Unterminated)
    } else {
        let c = t[i + 1];
        let simple = if c == 'n' {
            Some('\n')
        } else if c == 't' {
            Some('\t')
        } else if c == '\\' {
            Some('\\')
        } else if c == '"' {
            Some('"')
        } else if c == '\'' {
            Some('\'')
        } else {
            None
        };
        match simple {
            Some(d) => match unescape(t, i + 2) {
                Ok(r) => Ok(seq![d] + r),
                Err(e) => Err(e),
            },
            None => if c == 'u' {
                if i + 6 <= t.len() && is_hex(t[i + 2]) && is_hex(t[i + 3]) && is_hex(t[i + 4])
                    && is_hex(t[i + 5]) {
                    let code = hex_val(t[i + 2]) * 4096 + hex_val(t[i + 3]) * 256 + hex_val(t[i + 4])
                        * 16 + hex_val(t[i + 5]);
                    if 0xD800 <= code <= 0xDFFF {
                        Err(EscFail::Surrogate(i + 1))
                    } else {
                        match unescape(t, i + 6) {
                            Ok(r) => Ok(seq![code as char] + r),
                            Err(e) => Err(e),
                        }
                    }
                } else {
                    Err(EscFail::BadHex(i + 1))
                }
            } else {
                Err(EscFail::Unknown(i + 1, c))
            },
        }
    }
}

/// The error that decoding escapes reports, for text `t` whose first
/// character sits at column `col` of line `line`.
pub open spec fn esc_error(t: Seq<char>, f: EscFail, line: nat, col: nat) -> (ErrorKind, nat, nat, Seq<char>) {
    match f {
        EscFail::Unterminated => (ErrorKind::Unterminated, line, col, "unterminated escape"@),
        EscFail::BadHex(j) => (
            ErrorKind::UnexpectedCharacter,
            line,
            col + bytes_len(t.take(j)),
            "invalid \\u escape (expected 4 hex digits)"@,
        ),
        EscFail::Surrogate(j) => (
            ErrorKind::UnexpectedCharacter,
            line,
            col + bytes_len(t.take(j)),
            "invalid \\u escape (surrogate)"@,
        ),
        EscFail::Unknown(j, c) => (
            ErrorKind::UnexpectedCharacter,
            line,
            col + bytes_len(t.take(j)),
            "invalid escape `\\"@ + seq![c] + "`"@,
        ),
    }
}

/// Whether `e` is the error `(kind, line, col, message)`.
pub open spec fn error_is(e: Error, d: (ErrorKind, nat, nat, Seq<char>)) -> bool {
    e.kind == d.0 && e.line == d.1 && e.col == d.2 && e.message@ == d.3
}

/// Offset of the first comment start in `s` (the end when none).
pub fn comment_start(s: &Vec<char>) -> (r: usize)
    ensures
        r == cut_comment(s@, 0, false, false),
        r <= s@.len(),
{
    let mut in_dq = false;
    let mut esc = false;
    let mut i: usize = 0;
    while i < s.len()
        invariant
            i <= s@.len(),
            cut_comment(s@, i as int, in_dq, esc) == cut_comment(s@, 0, false, false),
        decreases s.len() - i,
    {
        let c = s[i];
        if in_dq {
            if c == '\\' {
                esc = !esc;
            } else if c == '"' && !esc {
                in_dq = false;
            } else {
                esc = false;
            }
        } else {
            if c == '#' {
                return i;
            } else if c == '"' {
                in_dq = true;
            }
        }
        i += 1;
    }
    i
}

/// End of the comment-stripped, right-trimmed content of `rest`.
pub fn stripped_len(rest: &Vec<char>) -> (r: usize)
    ensures
        r <= rest@.len(),
        rest@.take(r as int) == stripped(rest@),
        r == trim_end_len(rest@, cut_comment(rest@, 0, false, false)),
{
    let mut n = comment_start(rest);
    let ghost c = n;
    while n > 0 && is_ws_char(rest[n - 1])
        invariant
            n <= rest@.len(),
            c <= rest@.len(),
            trim_end_len(rest@, n as int) == trim_end_len(rest@, c as int),
        decreases n,
    {
        n -= 1;
    }
    n
}

/// `char::is_whitespace`.
pub fn is_ws_char(c: char) -> (b: bool)
    ensures
        b == is_ws(c),
{
    c == ' ' || (c >= '\t' && c <= '\r') || c == '\u{85}' || c == '\u{a0}' || c == '\u{1680}' || (c
        >= '\u{2000}' && c <= '\u{200a}') || c == '\u{2028}' || c == '\u{2029}' || c == '\u{202f}'
        || c == '\u{205f}' || c == '\u{3000}'
}

/// Errors when a tab appears outside a double-quoted string; the column is
/// `base_col` plus the tab's character offset.
pub fn check_tab(s: &Vec<char>, line_no: usize, base_col: usize) -> (r: Result<(), Error>)
    requires
        base_col + s@.len() <= usize::MAX,
    ensures
        match first_tab(s@, 0, false, false) {
            None => r is Ok,
            Some(i) => r matches Err(e) && error_is(
                e,
                (ErrorKind::Tab, line_no as nat, (base_col + i) as nat, "tab outside quoted strings"@),
            ),
        },
{
    let mut in_dq = false;
    let mut esc = false;
    let mut i: usize = 0;
    while i < s.len()
        invariant
            i <= s@.len(),
            base_col + s@.len() <= usize::MAX,
            first_tab(s@, i as int, in_dq, esc) == first_tab(s@, 0, false, false),
        decreases s.len() - i,
    {
        let c = s[i];
        if in_dq {
            if c == '\\' {
                esc = !esc;
            } else if c == '"' && !esc {
                in_dq = false;
            } else {
                esc = false;
            }
        } else {
            if c == '\t' {
                return Err(Error::new(ErrorKind::Tab, line_no, base_col + i, "tab outside quoted strings"));
            } else if c == '"' {
                in_dq = true;
            }
        }
        i += 1;
    }
    Ok(())
}

/// The value of a hex digit character.
fn hex_digit(c: char) -> (r: Option<u32>)
    ensures
        is_hex(c) ==> r == Some(hex_val(c) as u32),
        !is_hex(c) ==> r is None,
{
    if c >= '0' && c <= '9' {
        Some((c as u32) - ('0' as u32))
    } else if c >= 'a' && c <= 'f' {
        Some((c as u32) - ('a' as u32) + 10)
    } else if c >= 'A' && c <= 'F' {
        Some((c as u32) - ('A' as u32) + 10)
    } else {
        None
    }
}

/// One decoding step at index `i`: the character produced and the index
/// after the consumed input, or the fault.
pub open spec fn esc_step(t: Seq<char>, i: int) -> Result<(char, int), EscFail> {
    if t[i] != '\\' {
        Ok((t[i], i + 1))
    } else if i + 1 >= t.len() {
        Err(EscFail::Unterminated)
    } else {
        let c = t[i + 1];
        if c == 'n' {
            Ok(('\n', i + 2))
        } else if c == 't' {
            Ok(('\t', i + 2))
        } else if c == '\\' {
            Ok(('\\', i + 2))
        } else if c == '"' {
            Ok(('"', i + 2))
        } else if c == '\'' {
            Ok(('\'', i + 2))
        } else if c == 'u' {
            if i + 6 <= t.len() && is_hex(t[i + 2]) && is_hex(t[i + 3]) && is_hex(t[i + 4]) && is_hex(
                t[i + 5],
            ) {
                let code = hex_val(t[i + 2]) * 4096 + hex_val(t[i + 3]) * 256 + hex_val(t[i + 4]) * 16
                    + hex_val(t[i + 5]);
                if 0xD800 <= code <= 0xDFFF {
                    Err(EscFail::Surrogate(i + 1))
                } else {
                    Ok((code as char, i + 6))
                }
            } else {
                Err(EscFail::BadHex(i + 1))
            }
        } else {
            Err(EscFail::Unknown(i + 1, c))
        }
    }
}

/// Decoding from `i` is one step followed by decoding the rest.
pub proof fn lemma_unescape_step(t: Seq<char>, i: int)
    requires
        0 <= i < t.len(),
    ensures
        match esc_step(t, i) {
            Ok((c, n)) => i < n <= t.len() && unescape(t, i) == match unescape(t, n) {
                Ok(r) => Ok(seq![c] + r),
                Err(e) => Err(e),
            },
            Err(f) => unescape(t, i) == Err::<Seq<char>, EscFail>(f),
        },
{
}

#[verifier::rlimit(40)]
/// Decodes the one character (or escape) at `s[i]`, within the text
/// `s[lo..hi]` whose first character sits at column `col`.
fn escape_step(s: &Vec<char>, lo: usize, hi: usize, i: usize, line_no: usize, col: usize) -> (r: Result<(char, usize), Error>)
    requires
        lo <= i < hi <= s@.len(),
        col + bytes_len(s@.subrange(lo as int, hi as int)) <= usize::MAX,
    ensures
        match esc_step(s@.subrange(lo as int, hi as int), i - lo) {
            Ok((c, n)) => r matches Ok((c2, n2)) && c2 == c && n2 == n + lo,
            Err(f) => r matches Err(e) && error_is(
                e,
                esc_error(s@.subrange(lo as int, hi as int), f, line_no as nat, col as nat),
            ),
        },
{
    let ghost t = s@.subrange(lo as int, hi as int);
    let c = s[i];
    if c != '\\' {
        return Ok((c, i + 1));
    }
    if i + 1 >= hi {
        return Err(Error::new(ErrorKind::Unterminated, line_no, col, "unterminated escape"));
    }
    let d = s[i + 1];
    if d == 'n' {
        return Ok(('\n', i + 2));
    } else if d == 't' {
        return Ok(('\t', i + 2));
    } else if d == '\\' {
        return Ok(('\\', i + 2));
    } else if d == '"' {
        return Ok(('"', i + 2));
    } else if d == '\'' {
        return Ok(('\'', i + 2));
    }
    let j = i + 1 - lo;
    proof {
        crate::text::lemma_bytes_len_prefix(t, j as int);
        assert(t.take(j as int) =~= s@.subrange(lo as int, i + 1));
    }
    let jb = bytes_len_range(s, lo, i + 1);
    if d != 'u' {
        let mut msg: Vec<char> = Vec::new();
        extend_str(&mut msg, "invalid escape `\\");
        let ghost m0 = msg@;
        msg.push(d);
        assert(msg@ =~= m0 + seq![d]);
        extend_str(&mut msg, "`");
        return Err(Error::from_chars(ErrorKind::UnexpectedCharacter, line_no, col + jb, &msg));
    }
    if hi - i < 6 {
        return Err(Error::new(ErrorKind::UnexpectedCharacter, line_no, col + jb, "invalid \\u escape (expected 4 hex digits)"));
    }
    let h0 = hex_digit(s[i + 2]);
    let h1 = hex_digit(s[i + 3]);
    let h2 = hex_digit(s[i + 4]);
    let h3 = hex_digit(s[i + 5]);
    if h0.is_none() || h1.is_none() || h2.is_none() || h3.is_none() {
        return Err(Error::new(ErrorKind::UnexpectedCharacter, line_no, col + jb, "invalid \\u escape (expected 4 hex digits)"));
    }
    let code: u32 = h0.unwrap() * 4096 + h1.unwrap() * 256 + h2.unwrap() * 16 + h3.unwrap();
    match char_from_u32(code) {
        Some(ch) => Ok((ch, i + 6)),
        None => Err(Error::new(ErrorKind::UnexpectedCharacter, line_no, col + jb, "invalid \\u escape (surrogate)")),
    }
}

/// Decodes the escapes of `s[lo..hi]`, whose first character sits at
/// column `col` of line `line_no`.
pub fn scan_escapes(s: &Vec<char>, lo: usize, hi: usize, line_no: usize, col: usize) -> (r: Result<Vec<char>, Error>)
    requires
        lo <= hi <= s@.len(),
        col + bytes_len(s@.subrange(lo as int, hi as int)) <= usize::MAX,
    ensures
        match unescape(s@.subrange(lo as int, hi as int), 0) {
            Ok(t) => r matches Ok(v) && v@ == t,
            Err(f) => r matches Err(e) && error_is(
                e,
                esc_error(s@.subrange(lo as int, hi as int), f, line_no as nat, col as nat),
            ),
        },
{
    let ghost t = s@.subrange(lo as int, hi as int);
    let mut out: Vec<char> = Vec::new();
    let mut i = lo;
    while i < hi
        invariant
            lo <= i <= hi,
            hi <= s@.len(),
            t == s@.subrange(lo as int, hi as int),
            col + bytes_len(t) <= usize::MAX,
            match unescape(t, i - lo) {
                Ok(rest) => unescape(t, 0) == Ok::<Seq<char>, EscFail>(out@ + rest),
                Err(f) => unescape(t, 0) == Err::<Seq<char>, EscFail>(f),
            },
        decreases hi - i,
    {
        proof {
            lemma_unescape_step(t, i - lo);
        }
        let (c, n) = escape_step(s, lo, hi, i, line_no, col)?;
        let ghost before = out@;
        out.push(c);
        i = n;
        proof {
            match unescape(t, i - lo) {
                Ok(rest) => {
                    assert(out@ + rest =~= before + (seq![c] + rest));
                },
                Err(_) => {},
            }
        }
    }
    proof {
        assert(out@ + Seq::<char>::empty() =~= out@);
    }
    Ok(out)
}

/// Index of the closing quote of a double-quoted string scanned from
/// `i`, skipping the character after each backslash.
pub open spec fn dq_close(t: Seq<char>, i: int) -> Option<int>
    decreases t.len() - i,
{
    if i < 0 || i >= t.len() {
        None
    } else if t[i] == '\\' {
        if i + 1 >= t.len() {
            None
        } else {
            dq_close(t, i + 2)
        }
    } else if t[i] == '"' {
        Some(i)
    } else {
        dq_close(t, i + 1)
    }
}

/// The error tuple `(kind, line, col, message)` of a failed scan.
pub type ErrV = (ErrorKind, nat, nat, Seq<char>);

/// A quoted token at the start of `t` (first character at column `col`):
/// its decoded text and its length in characters. Double quotes decode
/// escapes; single quotes are literal.
pub open spec fn quoted_spec(t: Seq<char>, line: nat, col: nat) -> Result<(Seq<char>, int), ErrV> {
    if t.len() > 0 && t[0] == '"' {
        match dq_close(t, 1) {
            None => Err((ErrorKind::Unterminated, line, col, "unterminated double-quoted string"@)),
            Some(end) => match unescape(t.subrange(1, end), 0) {
                Ok(x) => Ok((x, end + 1)),
                Err(f) => Err(esc_error(t.subrange(1, end), f, line, col + 1)),
            },
        }
    } else if t.len() > 0 && t[0] == '\'' {
        let k = crate::grammar::index_of_either(t.skip(1), '\'', '\'');
        if k >= t.len() - 1 {
            Err((ErrorKind::Unterminated, line, col, "unterminated single-quoted string"@))
        } else {
            Ok((t.subrange(1, k + 1), k + 2))
        }
    } else {
        Err((ErrorKind::UnexpectedCharacter, line, col, "expected quoted key"@))
    }
}

/// Scans a quoted token at `s[lo..hi]` (a double- or single-quoted
/// string). Returns the decoded text, its length in characters, and its
/// length in UTF-8 bytes.
pub fn scan_quoted(s: &Vec<char>, lo: usize, hi: usize, line_no: usize, col: usize) -> (r: Result<(Vec<char>, usize, usize), Error>)
    requires
        lo <= hi <= s@.len(),
        col + 1 + bytes_len(s@.subrange(lo as int, hi as int)) <= usize::MAX,
    ensures
        match quoted_spec(s@.subrange(lo as int, hi as int), line_no as nat, col as nat) {
            Ok((x, used)) => r matches Ok((v, u, b)) && v@ == x && u == used && b == bytes_len(
                s@.subrange(lo as int, hi as int).take(used),
            ) && 0 < used <= hi - lo,
            Err(d) => r matches Err(e) && error_is(e, d),
        },
{
    let ghost t = s@.subrange(lo as int, hi as int);
    if lo < hi {
        assert(t[0] == s@[lo as int]);
    }
    if lo < hi && s[lo] == '"' {
        let mut i = lo + 1;
        while i < hi && s[i] != '"'
            invariant
                lo + 1 <= i,
                i <= hi,
                hi <= s@.len(),
                t == s@.subrange(lo as int, hi as int),
                t.len() > 0 && t[0] == '"',
                dq_close(t, i - lo) == dq_close(t, 1),
            decreases hi - i,
        {
            assert(t[i - lo] == s@[i as int]);
            if s[i] == '\\' {
                if i + 1 >= hi {
                    assert(dq_close(t, i - lo) is None);
                    return Err(Error::new(ErrorKind::Unterminated, line_no, col, "unterminated double-quoted string"));
                }
                i += 2;
            } else {
                i += 1;
            }
        }
        if i >= hi {
            return Err(Error::new(ErrorKind::Unterminated, line_no, col, "unterminated double-quoted string"));
        }
        proof {
            crate::text::lemma_bytes_len_prefix(t, (i - lo + 1) as int);
            crate::text::lemma_bytes_len_prefix(t.subrange(1, i - lo), 0);
            assert(t.subrange(1, i - lo) =~= s@.subrange(lo + 1, i as int));
            lemma_bytes_len_sub(t, 1, i - lo);
            assert(t.take(i - lo + 1) =~= s@.subrange(lo as int, i + 1));
        }
        let text = scan_escapes(s, lo + 1, i, line_no, col + 1)?;
        let b = bytes_len_range(s, lo, i + 1);
        return Ok((text, i - lo + 1, b));
    }
    if lo < hi && s[lo] == '\'' {
        let k = crate::grammar::find_either(s, lo + 1, hi, '\'', '\'');
        assert(t.skip(1) =~= s@.subrange(lo + 1, hi as int));
        if k >= hi {
            return Err(Error::new(ErrorKind::Unterminated, line_no, col, "unterminated single-quoted string"));
        }
        let mut text: Vec<char> = Vec::new();
        crate::text::extend_range(&mut text, s, lo + 1, k);
        assert(text@ =~= t.subrange(1, k - lo));
        proof {
            crate::text::lemma_bytes_len_prefix(t, (k - lo + 1) as int);
            assert(t.take(k - lo + 1) =~= s@.subrange(lo as int, k + 1));
        }
        let b = bytes_len_range(s, lo, k + 1);
        return Ok((text, k - lo + 1, b));
    }
    Err(Error::new(ErrorKind::UnexpectedCharacter, line_no, col, "expected quoted key"))
}

/// The bytes of a middle piece are no more than those of the whole.
pub proof fn lemma_bytes_len_sub(t: Seq<char>, a: int, b: int)
    requires
        0 <= a <= b <= t.len(),
    ensures
        bytes_len(t.subrange(a, b)) <= bytes_len(t),
    decreases t.len(),
{
    if b < t.len() {
        assert(t.drop_last().subrange(a, b) =~= t.subrange(a, b));
        lemma_bytes_len_sub(t.drop_last(), a, b);
    } else if a < b {
        assert(t.subrange(a, b).drop_last() =~= t.drop_last().subrange(a, b - 1));
        lemma_bytes_len_sub(t.drop_last(), a, b - 1);
    } else {
        assert(t.subrange(a, b).len() == 0);
    }
}

} // verus!
