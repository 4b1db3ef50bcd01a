//! Token predicates for the KVD grammar. They classify a string against
//! the format's token grammar; they never fail.
use vstd::prelude::*;
use crate::text::chars_of;

verus! {

/// `[0-9]`
pub open spec fn is_digit(c: char) -> bool {
    '0' <= c <= '9'
}

/// `[a-z]`
pub open spec fn is_lower(c: char) -> bool {
    'a' <= c <= 'z'
}

/// `[A-Za-z0-9]`
pub open spec fn is_alnum(c: char) -> bool {
    is_digit(c) || is_lower(c) || ('A' <= c <= 'Z')
}

/// A character allowed inside a bare key: `[A-Za-z0-9_-]`.
pub open spec fn is_key_char(c: char) -> bool {
    is_alnum(c) || c == '_' || c == '-'
}

/// A character allowed after the first of a type name or metakey body:
/// `[a-z0-9_-]`.
pub open spec fn is_name_char(c: char) -> bool {
    is_lower(c) || is_digit(c) || c == '_' || c == '-'
}

/// Every character of `s` is a decimal digit.
pub open spec fn all_digits(s: Seq<char>) -> bool {
    forall|i: int| 0 <= i < s.len() ==> is_digit(#[trigger] s[i])
}

/// `[A-Za-z0-9] | [A-Za-z0-9] [A-Za-z0-9_-]* [A-Za-z0-9]`
pub open spec fn spec_is_key(s: Seq<char>) -> bool {
    &&& s.len() >= 1
    &&& is_alnum(s[0])
    &&& is_alnum(s[s.len() - 1])
    &&& forall|i: int| 0 <= i < s.len() ==> is_key_char(#[trigger] s[i])
}

/// `__ [a-z] [a-z0-9_-]* __`
pub open spec fn spec_is_metakey(s: Seq<char>) -> bool {
    &&& s.len() >= 5
    &&& s[0] == '_' && s[1] == '_'
    &&& s[s.len() - 2] == '_' && s[s.len() - 1] == '_'
    &&& is_lower(s[2])
    &&& forall|i: int| 2 <= i < s.len() - 2 ==> is_name_char(#[trigger] s[i])
}

/// The one metakey the format defines.
pub open spec fn spec_is_known_metakey(s: Seq<char>) -> bool {
    s == "__schema__"@
}

/// `[a-z] [a-z0-9_-]*`
pub open spec fn spec_is_type_name(s: Seq<char>) -> bool {
    &&& s.len() >= 1
    &&& is_lower(s[0])
    &&& forall|i: int| 1 <= i < s.len() ==> is_name_char(#[trigger] s[i])
}

/// The six builtin type names.
pub open spec fn spec_is_builtin_type(s: Seq<char>) -> bool {
    s == "int"@ || s == "float"@ || s == "bool"@ || s == "str"@ || s == "list"@ || s == "map"@
}

/// The type names the writer leaves bare, so that schema documents read
/// back with their types: the six builtin type names and `dict`, the
/// name the schema checker gives maps.
pub open spec fn spec_is_bare_type(s: Seq<char>) -> bool {
    spec_is_builtin_type(s) || s == "dict"@
}

/// `s` without one leading `+` or `-`.
pub open spec fn strip_sign(s: Seq<char>) -> Seq<char> {
    if s.len() > 0 && (s[0] == '+' || s[0] == '-') {
        s.drop_first()
    } else {
        s
    }
}

/// `0 | [1-9][0-9]*`
pub open spec fn spec_plain_int(d: Seq<char>) -> bool {
    d == seq!['0'] || (d.len() >= 1 && '1' <= d[0] <= '9' && all_digits(d))
}

/// `(_[0-9]{3})*`
pub open spec fn grouped_tail(t: Seq<char>) -> bool
    decreases t.len(),
{
    if t.len() == 0 {
        true
    } else {
        t.len() >= 4 && t[0] == '_' && is_digit(t[1]) && is_digit(t[2]) && is_digit(t[3])
            && grouped_tail(t.skip(4))
    }
}

/// `[1-9][0-9]{0,2}(_[0-9]{3})+`
pub open spec fn spec_grouped_int(d: Seq<char>) -> bool {
    &&& d.len() >= 1
    &&& '1' <= d[0] <= '9'
    &&& exists|g: int|
        1 <= g <= 3 && g < d.len() && all_digits(#[trigger] d.take(g)) && grouped_tail(d.skip(g))
}

/// `[+-]?0 | [+-]?[1-9][0-9]* | [+-]?[1-9][0-9]{0,2}(_[0-9]{3})+`
pub open spec fn spec_is_int(s: Seq<char>) -> bool {
    spec_plain_int(strip_sign(s)) || spec_grouped_int(strip_sign(s))
}

/// Index of the first `a` or `b` in `s`, or `s.len()` when neither occurs.
pub open spec fn index_of_either(s: Seq<char>, a: char, b: char) -> int
    decreases s.len(),
{
    if s.len() == 0 {
        0
    } else if s[0] == a || s[0] == b {
        0
    } else {
        1 + index_of_either(s.drop_first(), a, b)
    }
}

/// `[+-]?[0-9]+`
pub open spec fn signed_digits(x: Seq<char>) -> bool {
    strip_sign(x).len() > 0 && all_digits(strip_sign(x))
}

/// The unsigned body of a float literal: a mantissa (`int` or `int.frac`)
/// followed by an optional exponent; without a fraction the exponent is
/// required.
pub open spec fn float_body(d: Seq<char>) -> bool {
    let k = index_of_either(d, 'e', 'E');
    let m = d.take(k);
    let p = index_of_either(m, '.', '.');
    &&& d.len() > 0
    &&& (k < d.len() ==> signed_digits(d.skip(k + 1)))
    &&& if p < m.len() {
        m.skip(p + 1).len() > 0 && all_digits(m.skip(p + 1)) && spec_plain_int(m.take(p))
    } else {
        k < d.len() && spec_plain_int(m)
    }
}

/// `[+-]? (0|[1-9][0-9]*) ( \.[0-9]+ ([eE][+-]?[0-9]+)? | [eE][+-]?[0-9]+ )`
pub open spec fn spec_is_float(s: Seq<char>) -> bool {
    float_body(strip_sign(s))
}

/// Index of the first `a` or `b` in `v[lo..hi]`, as an absolute position
/// (`hi` when neither occurs).
pub fn find_either(v: &Vec<char>, lo: usize, hi: usize, a: char, b: char) -> (r: usize)
    requires
        lo <= hi <= v@.len(),
    ensures
        lo <= r <= hi,
        r - lo == index_of_either(v@.subrange(lo as int, hi as int), a, b),
{
    let mut i = lo;
    while i < hi && v[i] != a && v[i] != b
        invariant
            lo <= i <= hi,
            hi <= v@.len(),
            forall|j: int| lo <= j < i ==> v@[j] != a && v@[j] != b,
        decreases hi - i,
    {
        i += 1;
    }
    proof {
        lemma_index_of_either_prefix(v@.subrange(lo as int, hi as int), a, b, i - lo);
        assert(v@.subrange(lo as int, hi as int).skip(i - lo) =~= v@.subrange(i as int, hi as int));
    }
    i
}

/// Skipping a prefix free of `a` and `b` shifts the first index.
pub proof fn lemma_index_of_either_prefix(s: Seq<char>, a: char, b: char, n: int)
    requires
        0 <= n <= s.len(),
        forall|j: int| 0 <= j < n ==> s[j] != a && s[j] != b,
    ensures
        index_of_either(s, a, b) == n + index_of_either(s.skip(n), a, b),
    decreases n,
{
    if n > 0 {
        lemma_index_of_either_prefix(s.drop_first(), a, b, n - 1);
        assert(s.drop_first().skip(n - 1) =~= s.skip(n));
    } else {
        assert(s.skip(0) =~= s);
    }
}

/// The first index lies within the sequence, and names an `a` or `b`
/// when it is not the end.
pub proof fn lemma_index_of_either_bounds(s: Seq<char>, a: char, b: char)
    ensures
        0 <= index_of_either(s, a, b) <= s.len(),
        index_of_either(s, a, b) < s.len() ==> (s[index_of_either(s, a, b)] == a || s[
            index_of_either(s, a, b)
        ] == b),
        forall|j: int| 0 <= j < index_of_either(s, a, b) ==> s[j] != a && s[j] != b,
    decreases s.len(),
{
    if s.len() > 0 && !(s[0] == a || s[0] == b) {
        lemma_index_of_either_bounds(s.drop_first(), a, b);
        assert forall|j: int| 0 <= j < index_of_either(s, a, b) implies s[j] != a && s[j] != b by {
            if j > 0 {
                assert(s[j] == s.drop_first()[j - 1]);
            }
        }
    }
}

/// Whether `v[lo..hi]` is all decimal digits.
pub fn all_digits_range(v: &Vec<char>, lo: usize, hi: usize) -> (r: bool)
    requires
        lo <= hi <= v@.len(),
    ensures
        r == all_digits(v@.subrange(lo as int, hi as int)),
{
    let mut i = lo;
    while i < hi
        invariant
            lo <= i <= hi,
            hi <= v@.len(),
            forall|j: int| lo <= j < i ==> is_digit(v@[j]),
        decreases hi - i,
    {
        if !(v[i] >= '0' && v[i] <= '9') {
            assert(!is_digit(v@.subrange(lo as int, hi as int)[i - lo]));
            return false;
        }
        i += 1;
    }
    assert forall|j: int| 0 <= j < hi - lo implies is_digit(
        #[trigger] v@.subrange(lo as int, hi as int)[j],
    ) by {
        assert(v@.subrange(lo as int, hi as int)[j] == v@[lo + j]);
    }
    true
}

/// Start of `v[lo..hi]` after one optional leading sign.
pub fn skip_sign(v: &Vec<char>, lo: usize, hi: usize) -> (r: usize)
    requires
        lo <= hi <= v@.len(),
    ensures
        lo <= r <= hi,
        v@.subrange(r as int, hi as int) == strip_sign(v@.subrange(lo as int, hi as int)),
{
    if lo < hi && (v[lo] == '+' || v[lo] == '-') {
        assert(v@.subrange(lo as int, hi as int).drop_first() =~= v@.subrange(lo + 1, hi as int));
        lo + 1
    } else {
        lo
    }
}

/// `0 | [1-9][0-9]*` on `v[lo..hi]`.
pub fn is_plain_int_range(v: &Vec<char>, lo: usize, hi: usize) -> (r: bool)
    requires
        lo <= hi <= v@.len(),
    ensures
        r == spec_plain_int(v@.subrange(lo as int, hi as int)),
{
    let ghost d = v@.subrange(lo as int, hi as int);
    if hi == lo {
        assert(d.len() == 0);
        assert(d != seq!['0']) by {
            assert(seq!['0'].len() == 1);
        }
        return false;
    }
    if v[lo] == '0' {
        if hi - lo == 1 {
            assert(d =~= seq!['0']);
            return true;
        }
        assert(d != seq!['0']) by {
            assert(d.len() != 1);
        }
        return false;
    }
    if !(v[lo] >= '1' && v[lo] <= '9') {
        assert(d != seq!['0']) by {
            assert(d[0] != '0');
        }
        return false;
    }
    let r = all_digits_range(v, lo, hi);
    assert(d != seq!['0']) by {
        assert(d[0] != '0');
    }
    r
}

/// Whether `v[lo..hi]` matches `(_[0-9]{3})*`.
fn grouped_tail_range(v: &Vec<char>, lo: usize, hi: usize) -> (r: bool)
    requires
        lo <= hi <= v@.len(),
    ensures
        r == grouped_tail(v@.subrange(lo as int, hi as int)),
    decreases hi - lo,
{
    let ghost t = v@.subrange(lo as int, hi as int);
    if lo == hi {
        return true;
    }
    if hi - lo < 4 {
        return false;
    }
    if !(v[lo] == '_' && v[lo + 1] >= '0' && v[lo + 1] <= '9' && v[lo + 2] >= '0' && v[lo + 2]
        <= '9' && v[lo + 3] >= '0' && v[lo + 3] <= '9') {
        assert(!(t[0] == '_' && is_digit(t[1]) && is_digit(t[2]) && is_digit(t[3])));
        return false;
    }
    assert(t.skip(4) =~= v@.subrange(lo + 4, hi as int));
    grouped_tail_range(v, lo + 4, hi)
}

/// `[1-9][0-9]{0,2}(_[0-9]{3})+` on `v[lo..hi]`.
fn is_grouped_range(v: &Vec<char>, lo: usize, hi: usize) -> (r: bool)
    requires
        lo <= hi <= v@.len(),
    ensures
        r == spec_grouped_int(v@.subrange(lo as int, hi as int)),
{
    let ghost d = v@.subrange(lo as int, hi as int);
    if hi == lo || !(v[lo] >= '1' && v[lo] <= '9') {
        return false;
    }
    let u = find_either(v, lo, hi, '_', '_');
    proof {
        lemma_index_of_either_bounds(d, '_', '_');
    }
    let g = u - lo;
    if g < 1 || g > 3 || u == hi {
        proof {
            assert forall|g2: int|
                1 <= g2 <= 3 && g2 < d.len() && all_digits(#[trigger] d.take(g2)) implies !grouped_tail(
                d.skip(g2),
            ) by {
                if g2 < g {
                    // The character at g2 is not `_`, so the tail does not start a group.
                    assert(d.skip(g2)[0] == d[g2]);
                    assert(d[g2] != '_');
                } else if g2 > g {
                    assert(d.take(g2)[g as int] == d[g as int]);
                    assert(!is_digit(d[g as int]));
                } else {
                    assert(false);
                }
            }
        }
        return false;
    }
    let lead = all_digits_range(v, lo, u);
    let tail = grouped_tail_range(v, u, hi);
    proof {
        assert(d.take(g as int) =~= v@.subrange(lo as int, u as int));
        assert(d.skip(g as int) =~= v@.subrange(u as int, hi as int));
        if lead && tail {
            assert(all_digits(d.take(g as int)) && grouped_tail(d.skip(g as int)));
        } else {
            assert forall|g2: int|
                1 <= g2 <= 3 && g2 < d.len() && all_digits(#[trigger] d.take(g2)) implies !grouped_tail(
                d.skip(g2),
            ) by {
                if g2 < g {
                    assert(d.skip(g2)[0] == d[g2]);
                    assert(d[g2] != '_');
                } else if g2 > g {
                    assert(d.take(g2)[g as int] == d[g as int]);
                    assert(!is_digit(d[g as int]));
                } else {
                    if !lead {
                        assert(d.take(g2) =~= d.take(g as int));
                    }
                }
            }
        }
    }
    lead && tail
}

/// `is_int` on `v[lo..hi]`.
pub fn is_int_range(v: &Vec<char>, lo: usize, hi: usize) -> (r: bool)
    requires
        lo <= hi <= v@.len(),
    ensures
        r == spec_is_int(v@.subrange(lo as int, hi as int)),
{
    let s = skip_sign(v, lo, hi);
    is_plain_int_range(v, s, hi) || is_grouped_range(v, s, hi)
}

/// `is_float` on `v[lo..hi]`.
pub fn is_float_range(v: &Vec<char>, lo: usize, hi: usize) -> (r: bool)
    requires
        lo <= hi <= v@.len(),
    ensures
        r == spec_is_float(v@.subrange(lo as int, hi as int)),
{
    let s = skip_sign(v, lo, hi);
    let ghost d = v@.subrange(s as int, hi as int);
    if s == hi {
        return false;
    }
    let k = find_either(v, s, hi, 'e', 'E');
    let ghost m = d.take(k - s);
    assert(m =~= v@.subrange(s as int, k as int));
    if k < hi {
        let es = skip_sign(v, k + 1, hi);
        assert(d.skip(k - s + 1) =~= v@.subrange(k + 1, hi as int));
        if es == hi || !all_digits_range(v, es, hi) {
            return false;
        }
    }
    let p = find_either(v, s, k, '.', '.');
    if p < k {
        assert(m.skip(p - s + 1) =~= v@.subrange(p + 1, k as int));
        assert(m.take(p - s) =~= v@.subrange(s as int, p as int));
        if p + 1 == k || !all_digits_range(v, p + 1, k) {
            return false;
        }
        is_plain_int_range(v, s, p)
    } else {
        if k == hi {
            return false;
        }
        is_plain_int_range(v, s, k)
    }
}

/// Whether `v[lo..hi]` is a bare key.
pub fn is_key_range(v: &Vec<char>, lo: usize, hi: usize) -> (r: bool)
    requires
        lo <= hi <= v@.len(),
    ensures
        r == spec_is_key(v@.subrange(lo as int, hi as int)),
{
    let ghost s = v@.subrange(lo as int, hi as int);
    if lo == hi {
        return false;
    }
    let mut i = lo;
    while i < hi
        invariant
            lo <= i <= hi,
            hi <= v@.len(),
            s == v@.subrange(lo as int, hi as int),
            forall|j: int| lo <= j < i ==> is_key_char(v@[j]),
        decreases hi - i,
    {
        let c = v[i];
        if !((c >= '0' && c <= '9') || (c >= 'a' && c <= 'z') || (c >= 'A' && c <= 'Z') || c == '_'
            || c == '-') {
            assert(!is_key_char(s[i - lo]));
            return false;
        }
        i += 1;
    }
    let f = v[lo];
    let l = v[hi - 1];
    let r = ((f >= '0' && f <= '9') || (f >= 'a' && f <= 'z') || (f >= 'A' && f <= 'Z')) && ((l
        >= '0' && l <= '9') || (l >= 'a' && l <= 'z') || (l >= 'A' && l <= 'Z'));
    assert(s[0] == f && s[s.len() - 1] == l);
    assert(forall|j: int| 0 <= j < s.len() ==> s[j] == v@[lo + j]);
    r
}

/// Whether `v[lo..hi]` is a metakey.
pub fn is_metakey_range(v: &Vec<char>, lo: usize, hi: usize) -> (r: bool)
    requires
        lo <= hi <= v@.len(),
    ensures
        r == spec_is_metakey(v@.subrange(lo as int, hi as int)),
{
    let ghost s = v@.subrange(lo as int, hi as int);
    if hi - lo < 5 {
        return false;
    }
    if !(v[lo] == '_' && v[lo + 1] == '_' && v[hi - 2] == '_' && v[hi - 1] == '_' && v[lo + 2]
        >= 'a' && v[lo + 2] <= 'z') {
        return false;
    }
    let mut i = lo + 2;
    while i < hi - 2
        invariant
            lo + 2 <= i <= hi - 2,
            hi <= v@.len(),
            s == v@.subrange(lo as int, hi as int),
            hi - lo >= 5,
            forall|j: int| lo + 2 <= j < i ==> is_name_char(v@[j]),
        decreases hi - i,
    {
        let c = v[i];
        if !((c >= 'a' && c <= 'z') || (c >= '0' && c <= '9') || c == '_' || c == '-') {
            assert(!is_name_char(s[i - lo]));
            return false;
        }
        i += 1;
    }
    assert(forall|j: int| 0 <= j < s.len() ==> s[j] == v@[lo + j]);
    true
}

/// Whether `v[lo..hi]` is a type name.
pub fn is_type_name_range(v: &Vec<char>, lo: usize, hi: usize) -> (r: bool)
    requires
        lo <= hi <= v@.len(),
    ensures
        r == spec_is_type_name(v@.subrange(lo as int, hi as int)),
{
    let ghost s = v@.subrange(lo as int, hi as int);
    if lo == hi || !(v[lo] >= 'a' && v[lo] <= 'z') {
        return false;
    }
    let mut i = lo + 1;
    while i < hi
        invariant
            lo + 1 <= i <= hi,
            hi <= v@.len(),
            s == v@.subrange(lo as int, hi as int),
            forall|j: int| lo + 1 <= j < i ==> is_name_char(v@[j]),
        decreases hi - i,
    {
        let c = v[i];
        if !((c >= 'a' && c <= 'z') || (c >= '0' && c <= '9') || c == '_' || c == '-') {
            assert(!is_name_char(s[i - lo]));
            return false;
        }
        i += 1;
    }
    assert(forall|j: int| 0 <= j < s.len() ==> s[j] == v@[lo + j]);
    true
}

/// Whether `v[lo..hi]` spells the literal `lit`.
pub fn range_is(v: &Vec<char>, lo: usize, hi: usize, lit: &str) -> (r: bool)
    requires
        lo <= hi <= v@.len(),
    ensures
        r == (v@.subrange(lo as int, hi as int) == lit@),
{
    let l = chars_of(lit);
    crate::text::range_eq(v, lo, hi, &l)
}

/// Whether `v[lo..hi]` is one of the six builtin type names.
pub fn is_builtin_type_range(v: &Vec<char>, lo: usize, hi: usize) -> (r: bool)
    requires
        lo <= hi <= v@.len(),
    ensures
        r == spec_is_builtin_type(v@.subrange(lo as int, hi as int)),
{
    range_is(v, lo, hi, "int") || range_is(v, lo, hi, "float") || range_is(v, lo, hi, "bool")
        || range_is(v, lo, hi, "str") || range_is(v, lo, hi, "list") || range_is(v, lo, hi, "map")
}

/// Whether `v[lo..hi]` is a type name the writer leaves bare.
pub fn is_bare_type_range(v: &Vec<char>, lo: usize, hi: usize) -> (r: bool)
    requires
        lo <= hi <= v@.len(),
    ensures
        r == spec_is_bare_type(v@.subrange(lo as int, hi as int)),
{
    is_builtin_type_range(v, lo, hi) || range_is(v, lo, hi, "dict")
}

/// `[A-Za-z0-9] | [A-Za-z0-9] [A-Za-z0-9_-]* [A-Za-z0-9]`.
pub fn is_key(s: &str) -> (r: bool)
    ensures
        r == spec_is_key(s@),
{
    let v = chars_of(s);
    assert(v@.subrange(0, v@.len() as int) =~= v@);
    is_key_range(&v, 0, v.len())
}

/// `__ [a-z] [a-z0-9_-]* __`.
pub fn is_metakey(s: &str) -> (r: bool)
    ensures
        r == spec_is_metakey(s@),
{
    let v = chars_of(s);
    assert(v@.subrange(0, v@.len() as int) =~= v@);
    is_metakey_range(&v, 0, v.len())
}

/// The metakey defined by the format (`__schema__`).
pub fn is_known_metakey(s: &str) -> (r: bool)
    ensures
        r == spec_is_known_metakey(s@),
{
    let v = chars_of(s);
    assert(v@.subrange(0, v@.len() as int) =~= v@);
    range_is(&v, 0, v.len(), "__schema__")
}

/// `[a-z] [a-z0-9_-]*` (type names are lowercase).
pub fn is_type_name(s: &str) -> (r: bool)
    ensures
        r == spec_is_type_name(s@),
{
    let v = chars_of(s);
    assert(v@.subrange(0, v@.len() as int) =~= v@);
    is_type_name_range(&v, 0, v.len())
}

/// The six builtin type names (`int`, `float`, `bool`, `str`, `list`, `map`).
pub fn is_builtin_type(s: &str) -> (r: bool)
    ensures
        r == spec_is_builtin_type(s@),
{
    let v = chars_of(s);
    assert(v@.subrange(0, v@.len() as int) =~= v@);
    is_builtin_type_range(&v, 0, v.len())
}

/// True when `s` spells an int or float literal.
pub fn looks_like_number(s: &str) -> (r: bool)
    ensures
        r == (spec_is_int(s@) || spec_is_float(s@)),
{
    is_int(s) || is_float(s)
}

/// `[+-]?0 | [+-]?[1-9][0-9]* | [+-]?[1-9][0-9]{0,2}(_[0-9]{3})+`.
pub fn is_int(s: &str) -> (r: bool)
    ensures
        r == spec_is_int(s@),
{
    let v = chars_of(s);
    assert(v@.subrange(0, v@.len() as int) =~= v@);
    is_int_range(&v, 0, v.len())
}

/// Float literals: `int.frac`, optionally with an exponent, or `int` with
/// a required exponent; one optional leading sign.
pub fn is_float(s: &str) -> (r: bool)
    ensures
        r == spec_is_float(s@),
{
    let v = chars_of(s);
    assert(v@.subrange(0, v@.len() as int) =~= v@);
    is_float_range(&v, 0, v.len())
}

} // verus!
