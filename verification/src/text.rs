//! Character-sequence helpers shared by the parser, the serializer and the
//! schema checker: conversions between `str`/`String` and `Vec<char>`,
//! decimal spelling of counters, and small sequence predicates.
use vstd::prelude::*;

verus! {

/// The character with code point `code`, or `None` for surrogates and
/// values above `0x10FFFF` (std `char::from_u32`).
#[verifier::external_body]
pub(crate) fn char_from_u32(code: u32) -> (r: Option<char>)
    ensures
        (code < 0xD800 || (0xDFFF < code <= 0x10FFFF)) ==> r == Some(code as char),
        !(code < 0xD800 || (0xDFFF < code <= 0x10FFFF)) ==> r is None,
{
    char::from_u32(code)
}

/// Number of bytes of `c` in UTF-8.
pub open spec fn utf8_len(c: char) -> nat {
    if (c as u32) < 0x80 {
        1
    } else if (c as u32) < 0x800 {
        2
    } else if (c as u32) < 0x10000 {
        3
    } else {
        4
    }
}

/// Number of bytes of `s` in UTF-8.
pub open spec fn bytes_len(s: Seq<char>) -> nat
    decreases s.len(),
{
    if s.len() == 0 {
        0
    } else {
        bytes_len(s.drop_last()) + utf8_len(s.last())
    }
}

/// Number of bytes of `v[lo..hi]` in UTF-8.
pub fn bytes_len_range(v: &Vec<char>, lo: usize, hi: usize) -> (n: usize)
    requires
        lo <= hi <= v@.len(),
        bytes_len(v@.subrange(lo as int, hi as int)) <= usize::MAX,
    ensures
        n == bytes_len(v@.subrange(lo as int, hi as int)),
{
    let mut n: usize = 0;
    let mut i = lo;
    while i < hi
        invariant
            lo <= i <= hi,
            hi <= v@.len(),
            n == bytes_len(v@.subrange(lo as int, i as int)),
            bytes_len(v@.subrange(lo as int, hi as int)) <= usize::MAX,
        decreases hi - i,
    {
        proof {
            assert(v@.subrange(lo as int, i + 1).drop_last() =~= v@.subrange(lo as int, i as int));
            lemma_bytes_len_prefix(v@.subrange(lo as int, hi as int), i + 1 - lo);
            assert(v@.subrange(lo as int, hi as int).take(i + 1 - lo) =~= v@.subrange(lo as int, i + 1));
        }
        let c = v[i];
        let code = c as u32;
        let w: usize = if code < 0x80 { 1 } else if code < 0x800 { 2 } else if code < 0x10000 { 3 } else { 4 };
        n = n + w;
        i += 1;
    }
    n
}

/// A prefix is no longer in bytes than the whole.
pub proof fn lemma_bytes_len_prefix(s: Seq<char>, k: int)
    requires
        0 <= k <= s.len(),
    ensures
        bytes_len(s.take(k)) <= bytes_len(s),
    decreases s.len(),
{
    if k < s.len() {
        assert(s.drop_last().take(k) =~= s.take(k));
        lemma_bytes_len_prefix(s.drop_last(), k);
    } else {
        assert(s.take(k) =~= s);
    }
}

/// A character takes at most four bytes in UTF-8.
pub proof fn lemma_bytes_len_bound(s: Seq<char>)
    ensures
        s.len() <= bytes_len(s) <= 4 * s.len(),
    decreases s.len(),
{
    if s.len() > 0 {
        lemma_bytes_len_bound(s.drop_last());
    }
}

/// Appends one character to a `String` (std `String::push`).
#[verifier::external_body]
pub(crate) fn push_char(s: &mut String, c: char)
    ensures
        final(s)@ == old(s)@.push(c),
{
    s.push(c);
}

/// The characters of `s`, in order.
pub fn chars_of(s: &str) -> (v: Vec<char>)
    ensures
        v@ == s@,
{
    let mut v: Vec<char> = Vec::new();
    let n = s.unicode_len();
    let mut i: usize = 0;
    while i < n
        invariant
            i <= n,
            n == s@.len(),
            v@ == s@.subrange(0, i as int),
        decreases n - i,
    {
        v.push(s.get_char(i));
        i += 1;
    }
    v
}

/// The characters of `s[lo..hi]` as a `String`.
pub fn string_of_range(v: &Vec<char>, lo: usize, hi: usize) -> (s: String)
    requires
        lo <= hi <= v@.len(),
    ensures
        s@ == v@.subrange(lo as int, hi as int),
{
    let mut s = String::new();
    let mut i: usize = lo;
    while i < hi
        invariant
            lo <= i <= hi,
            hi <= v@.len(),
            s@ == v@.subrange(lo as int, i as int),
        decreases hi - i,
    {
        push_char(&mut s, v[i]);
        i += 1;
    }
    s
}

/// The characters of `v` as a `String`.
pub fn string_of(v: &Vec<char>) -> (s: String)
    ensures
        s@ == v@,
{
    string_of_range(v, 0, v.len())
}

/// Appends `src[lo..hi]` to `dst`.
pub fn extend_range(dst: &mut Vec<char>, src: &Vec<char>, lo: usize, hi: usize)
    requires
        lo <= hi <= src@.len(),
    ensures
        final(dst)@ == old(dst)@ + src@.subrange(lo as int, hi as int),
{
    let mut i: usize = lo;
    while i < hi
        invariant
            lo <= i <= hi,
            hi <= src@.len(),
            dst@ == old(dst)@ + src@.subrange(lo as int, i as int),
        decreases hi - i,
    {
        dst.push(src[i]);
        i += 1;
        assert(src@.subrange(lo as int, i as int) == src@.subrange(lo as int, i - 1) + seq![
            src@[i - 1],
        ]);
    }
}

/// Appends all of `src` to `dst`.
pub fn extend(dst: &mut Vec<char>, src: &Vec<char>)
    ensures
        final(dst)@ == old(dst)@ + src@,
{
    extend_range(dst, src, 0, src.len());
    assert(src@.subrange(0, src@.len() as int) == src@);
}

/// Appends the characters of `s` to `dst`.
pub fn extend_str(dst: &mut Vec<char>, s: &str)
    ensures
        final(dst)@ == old(dst)@ + s@,
{
    let v = chars_of(s);
    extend(dst, &v);
}

/// The digit character for `d < 10`.
pub open spec fn digit_char(d: nat) -> char {
    (('0' as u32) + d) as char
}

/// Decimal spelling of `n` (no sign, no separators).
pub open spec fn decimal(n: nat) -> Seq<char>
    decreases n,
{
    if n < 10 {
        seq![digit_char(n)]
    } else {
        decimal(n / 10).push(digit_char(n % 10))
    }
}

/// The decimal spelling of `n`.
pub fn usize_to_chars(n: usize) -> (v: Vec<char>)
    ensures
        v@ == decimal(n as nat),
    decreases n,
{
    let d = (n % 10) as u32;
    let c = char_of_digit(d);
    if n < 10 {
        let mut v: Vec<char> = Vec::new();
        v.push(c);
        v
    } else {
        let mut v = usize_to_chars(n / 10);
        v.push(c);
        v
    }
}

/// The decimal spelling of `n`.
pub fn u64_to_chars(n: u64) -> (v: Vec<char>)
    ensures
        v@ == decimal(n as nat),
    decreases n,
{
    let d = (n % 10) as u32;
    let c = char_of_digit(d);
    if n < 10 {
        let mut v: Vec<char> = Vec::new();
        v.push(c);
        v
    } else {
        let mut v = u64_to_chars(n / 10);
        v.push(c);
        v
    }
}

/// Decimal spelling of an integer, with a leading `-` when negative.
pub open spec fn int_text(n: int) -> Seq<char> {
    if n < 0 {
        seq!['-'] + decimal((-n) as nat)
    } else {
        decimal(n as nat)
    }
}

/// The decimal spelling of `n` (with `-` when negative).
pub fn i64_to_chars(n: i64) -> (v: Vec<char>)
    ensures
        v@ == int_text(n as int),
{
    if n < 0 {
        let m: u64 = if n == i64::MIN {
            9223372036854775808u64
        } else {
            (-n) as u64
        };
        let d = u64_to_chars(m);
        let mut v: Vec<char> = Vec::new();
        v.push('-');
        extend(&mut v, &d);
        v
    } else {
        u64_to_chars(n as u64)
    }
}

/// `'0' + d` for a decimal digit `d`.
pub fn char_of_digit(d: u32) -> (c: char)
    requires
        d < 10,
    ensures
        c == digit_char(d as nat),
{
    if d == 0 { '0' }
    else if d == 1 { '1' }
    else if d == 2 { '2' }
    else if d == 3 { '3' }
    else if d == 4 { '4' }
    else if d == 5 { '5' }
    else if d == 6 { '6' }
    else if d == 7 { '7' }
    else if d == 8 { '8' }
    else { '9' }
}

/// Whether two character vectors hold the same sequence.
pub fn chars_eq(a: &Vec<char>, b: &Vec<char>) -> (r: bool)
    ensures
        r == (a@ == b@),
{
    if a.len() != b.len() {
        return false;
    }
    let mut i: usize = 0;
    while i < a.len()
        invariant
            i <= a.len(),
            a.len() == b.len(),
            forall|j: int| 0 <= j < i ==> a@[j] == b@[j],
        decreases a.len() - i,
    {
        if a[i] != b[i] {
            return false;
        }
        i += 1;
    }
    assert(a@ =~= b@);
    true
}

/// Whether `s` equals the characters of `lit`.
pub fn chars_eq_str(a: &Vec<char>, lit: &str) -> (r: bool)
    ensures
        r == (a@ == lit@),
{
    let b = chars_of(lit);
    chars_eq(a, &b)
}

/// Whether `a[lo..hi]` equals `b`.
pub fn range_eq(a: &Vec<char>, lo: usize, hi: usize, b: &Vec<char>) -> (r: bool)
    requires
        lo <= hi <= a@.len(),
    ensures
        r == (a@.subrange(lo as int, hi as int) == b@),
{
    if hi - lo != b.len() {
        return false;
    }
    let mut i: usize = 0;
    while i < b.len()
        invariant
            i <= b.len(),
            hi - lo == b.len(),
            lo <= hi <= a@.len(),
            forall|j: int| 0 <= j < i ==> a@[lo + j] == b@[j],
        decreases b.len() - i,
    {
        if a[lo + i] != b[i] {
            return false;
        }
        i += 1;
    }
    assert(a@.subrange(lo as int, hi as int) =~= b@);
    true
}

} // verus!
