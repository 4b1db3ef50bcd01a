//! Float bounds are ordered as the numbers they denote: the order that
//! numeric bounds use is the order of the real values of the two floats.
use vstd::prelude::*;
use crate::grammar::all_digits;
use crate::ops::digits_value;
use super::{float_order, float_text, lex_order, reverse, FloatV, Order};

verus! {

/// `10` to the power `e`.
pub open spec fn pow10(e: nat) -> nat
    decreases e,
{
    if e == 0 {
        1
    } else {
        10 * pow10((e - 1) as nat)
    }
}

/// The value of a decimal digit.
pub open spec fn digit_val(c: char) -> nat {
    (c as u32 - '0' as u32) as nat
}

/// Significant digits as a finite float holds them: decimal digits,
/// neither starting nor ending with `0`.
pub open spec fn normal_digits(d: Seq<char>) -> bool {
    &&& all_digits(d)
    &&& d.len() > 0 ==> d[0] != '0' && d.last() != '0'
}

/// The value of the finite float `±0.d × 10^p` counted in units of
/// `10^m`, for `m` at most the position `p - d.len()` of its last digit.
pub open spec fn units(neg: bool, d: Seq<char>, p: int, m: int) -> int {
    let mag = digits_value(d) * pow10((p - d.len() - m) as nat);
    if neg {
        -mag
    } else {
        mag as int
    }
}

/// Digits `d` followed by `L - d.len()` zeros, as a number.
pub open spec fn padded(d: Seq<char>, len: nat) -> nat {
    digits_value(d) * pow10((len - d.len()) as nat)
}

proof fn lemma_pow10_pos(e: nat)
    ensures
        pow10(e) >= 1,
    decreases e,
{
    if e > 0 {
        lemma_pow10_pos((e - 1) as nat);
    }
}

proof fn lemma_pow10_add(a: nat, b: nat)
    ensures
        pow10(a + b) == pow10(a) * pow10(b),
    decreases a,
{
    if a > 0 {
        let a1 = (a - 1) as nat;
        lemma_pow10_add(a1, b);
        assert(((a + b) - 1) as nat == a1 + b);
        assert(pow10(a + b) == 10 * pow10(a1 + b));
        assert(pow10(a) == 10 * pow10(a1));
        let x = pow10(a1);
        let y = pow10(b);
        assert(10 * (x * y) == (10 * x) * y) by (nonlinear_arith);
    } else {
        assert(a + b == b);
        assert(pow10(a) == 1);
        assert(1 * pow10(b) == pow10(b));
    }
}

proof fn lemma_pow10_mono(a: nat, b: nat)
    requires
        a <= b,
    ensures
        pow10(a) <= pow10(b),
{
    lemma_pow10_add(a, (b - a) as nat);
    lemma_pow10_pos((b - a) as nat);
    lemma_pow10_pos(a);
    let x = pow10(a);
    let y = pow10((b - a) as nat);
    assert(x <= x * y) by (nonlinear_arith)
        requires
            y >= 1,
            x >= 1,
    ;
}

/// Digits read as a number stay below the next power of ten.
proof fn lemma_dv_bound(d: Seq<char>)
    requires
        all_digits(d),
    ensures
        digits_value(d) < pow10(d.len()),
    decreases d.len(),
{
    if d.len() > 0 {
        let dl = d.drop_last();
        assert(all_digits(dl));
        lemma_dv_bound(dl);
        assert(crate::grammar::is_digit(d.last()));
        let v = digit_val(d.last());
        assert(v <= 9);
        let a = digits_value(dl);
        let p = pow10(dl.len());
        assert(d.len() == dl.len() + 1);
        assert(pow10(d.len()) == 10 * p);
        assert(a * 10 + v < 10 * p) by (nonlinear_arith)
            requires
                a < p,
                v <= 9,
        ;
    }
}

/// The first digit counts `10^(len - 1)` times.
proof fn lemma_dv_front(d: Seq<char>)
    requires
        d.len() > 0,
    ensures
        digits_value(d) == digit_val(d[0]) * pow10((d.len() - 1) as nat) + digits_value(d.drop_first()),
    decreases d.len(),
{
    if d.len() == 1 {
        assert(d.drop_last() =~= Seq::<char>::empty());
        assert(d.drop_first() =~= Seq::<char>::empty());
        assert(d.last() == d[0]);
        assert(digits_value(d) == digits_value(d.drop_last()) * 10 + digit_val(d.last()));
        assert(digits_value(d.drop_last()) == 0);
        assert(pow10(0) == 1);
        let v = digit_val(d[0]);
        assert(v * 1 + 0 == v);
    } else {
        let dl = d.drop_last();
        lemma_dv_front(dl);
        assert(dl.drop_first() =~= d.drop_first().drop_last());
        assert(d.drop_first().last() == d.last());
        assert(dl[0] == d[0]);
        assert(digits_value(d) == digits_value(dl) * 10 + digit_val(d.last()));
        assert(digits_value(d.drop_first()) == digits_value(d.drop_first().drop_last()) * 10 + digit_val(
            d.drop_first().last(),
        ));
        assert(((d.len() - 1) as nat - 1) as nat == (dl.len() - 1) as nat);
        let a = digit_val(d[0]);
        let p = pow10((dl.len() - 1) as nat);
        let r = digits_value(dl.drop_first());
        let v = digit_val(d.last());
        assert(pow10((d.len() - 1) as nat) == 10 * p);
        assert((a * p + r) * 10 + v == a * (10 * p) + (r * 10 + v)) by (nonlinear_arith);
        assert(digits_value(dl) == a * p + r);
        assert(digits_value(d.drop_first()) == r * 10 + v);
        assert(digits_value(d) == (a * p + r) * 10 + v);
    }
}

/// Digits whose last is not `0` are worth at least one.
proof fn lemma_dv_positive(d: Seq<char>)
    requires
        all_digits(d),
        d.len() > 0,
        d.last() != '0',
    ensures
        digits_value(d) >= 1,
{
    assert(crate::grammar::is_digit(d.last()));
}

/// Digits starting with a non-zero digit are worth at least
/// `10^(len - 1)`.
proof fn lemma_dv_lower(d: Seq<char>)
    requires
        all_digits(d),
        d.len() > 0,
        d[0] != '0',
    ensures
        digits_value(d) >= pow10((d.len() - 1) as nat),
{
    lemma_dv_front(d);
    assert(crate::grammar::is_digit(d[0]));
    let a = digit_val(d[0]);
    assert(a >= 1);
    let p = pow10((d.len() - 1) as nat);
    assert(a * p >= p) by (nonlinear_arith)
        requires
            a >= 1,
            p >= 0,
    ;
}

/// Padded to a common length, digit strings without trailing zeros order
/// as the lexicographic order of their characters says.
proof fn lemma_lex_padded(a: Seq<char>, b: Seq<char>, len: nat)
    requires
        all_digits(a),
        all_digits(b),
        a.len() > 0 ==> a.last() != '0',
        b.len() > 0 ==> b.last() != '0',
        a.len() <= len,
        b.len() <= len,
    ensures
        (lex_order(a, b) == Order::Less) == (padded(a, len) < padded(b, len)),
        (lex_order(a, b) == Order::Equal) == (padded(a, len) == padded(b, len)),
        (lex_order(a, b) == Order::Greater) == (padded(a, len) > padded(b, len)),
    decreases a.len(),
{
    lemma_pow10_pos((len - a.len()) as nat);
    lemma_pow10_pos((len - b.len()) as nat);
    if a.len() == 0 || b.len() == 0 {
        if a.len() == 0 {
            assert(digits_value(a) == 0);
            assert(padded(a, len) == 0);
        }
        if b.len() == 0 {
            assert(digits_value(b) == 0);
            assert(padded(b, len) == 0);
        }
        if a.len() > 0 {
            lemma_dv_positive(a);
            lemma_pow10_pos((len - a.len()) as nat);
            let x = digits_value(a);
            let y = pow10((len - a.len()) as nat);
            assert(x * y >= 1) by (nonlinear_arith)
                requires
                    x >= 1,
                    y >= 1,
            ;
        }
        if b.len() > 0 {
            lemma_dv_positive(b);
            lemma_pow10_pos((len - b.len()) as nat);
            let x = digits_value(b);
            let y = pow10((len - b.len()) as nat);
            assert(x * y >= 1) by (nonlinear_arith)
                requires
                    x >= 1,
                    y >= 1,
            ;
        }
    } else {
        let a1 = a.drop_first();
        let b1 = b.drop_first();
        assert(all_digits(a1));
        assert(all_digits(b1));
        if a1.len() > 0 {
            assert(a1.last() == a.last());
        }
        if b1.len() > 0 {
            assert(b1.last() == b.last());
        }
        let l1 = (len - 1) as nat;
        lemma_lex_padded(a1, b1, l1);
        // pad(x) = first digit times 10^(len - 1) plus the padded rest
        lemma_dv_front(a);
        lemma_dv_front(b);
        lemma_pow10_add((a.len() - 1) as nat, (len - a.len()) as nat);
        lemma_pow10_add((b.len() - 1) as nat, (len - b.len()) as nat);
        assert((a.len() - 1) as nat + (len - a.len()) as nat == l1);
        assert((b.len() - 1) as nat + (len - b.len()) as nat == l1);
        assert(padded(a1, l1) == digits_value(a1) * pow10((l1 - a1.len()) as nat));
        assert((l1 - a1.len()) as nat == (len - a.len()) as nat);
        assert((l1 - b1.len()) as nat == (len - b.len()) as nat);
        let pa = pow10((len - a.len()) as nat);
        let pb = pow10((len - b.len()) as nat);
        let p = pow10(l1);
        let va = digit_val(a[0]);
        let vb = digit_val(b[0]);
        let ra = digits_value(a1);
        let rb = digits_value(b1);
        let qa = pow10((a.len() - 1) as nat);
        let qb = pow10((b.len() - 1) as nat);
        assert(qa * pa == p);
        assert(qb * pb == p);
        assert(padded(a, len) == va * p + padded(a1, l1)) by (nonlinear_arith)
            requires
                padded(a, len) == (va * qa + ra) * pa,
                padded(a1, l1) == ra * pa,
                qa * pa == p,
        {
        }
        assert(padded(b, len) == vb * p + padded(b1, l1)) by (nonlinear_arith)
            requires
                padded(b, len) == (vb * qb + rb) * pb,
                padded(b1, l1) == rb * pb,
                qb * pb == p,
        {
        }
        // the padded rests stay below 10^(len - 1)
        lemma_dv_bound(a1);
        lemma_dv_bound(b1);
        lemma_pow10_add(a1.len(), (l1 - a1.len()) as nat);
        lemma_pow10_add(b1.len(), (l1 - b1.len()) as nat);
        assert((l1 - a1.len()) as nat == (len - a.len()) as nat);
        assert((l1 - b1.len()) as nat == (len - b.len()) as nat);
        assert(a1.len() + (l1 - a1.len()) as nat == l1);
        assert(b1.len() + (l1 - b1.len()) as nat == l1);
        let xa = padded(a1, l1);
        let xb = padded(b1, l1);
        assert(xa < p) by (nonlinear_arith)
            requires
                xa == ra * pa,
                ra < pow10(a1.len()),
                pow10(a1.len()) * pa == p,
                pa >= 1,
        {
        }
        assert(xb < p) by (nonlinear_arith)
            requires
                xb == rb * pb,
                rb < pow10(b1.len()),
                pow10(b1.len()) * pb == p,
                pb >= 1,
        {
        }
        assert(crate::grammar::is_digit(a[0]));
        assert(crate::grammar::is_digit(b[0]));
        if a[0] < b[0] {
            assert(va + 1 <= vb);
            assert(va * p + xa < vb * p + xb) by (nonlinear_arith)
                requires
                    va + 1 <= vb,
                    xa < p,
                    xb >= 0,
            ;
        } else if a[0] > b[0] {
            assert(vb + 1 <= va);
            assert(vb * p + xb < va * p + xa) by (nonlinear_arith)
                requires
                    vb + 1 <= va,
                    xb < p,
                    xa >= 0,
            ;
        } else {
            assert(va == vb);
        }
        lemma_pow10_pos((len - a.len()) as nat);
        lemma_pow10_pos((len - b.len()) as nat);
    }
}

/// Two positive finite floats `0.a × 10^pa` and `0.b × 10^pb` with
/// normal digits compare, by point position and then digit by digit, as
/// their values do in units of `10^m`.
proof fn lemma_magnitude(a: Seq<char>, pa: int, b: Seq<char>, pb: int, m: int)
    requires
        normal_digits(a),
        normal_digits(b),
        a.len() > 0,
        b.len() > 0,
        m == if pa - a.len() <= pb - b.len() { pa - a.len() } else { pb - b.len() },
    ensures
        ({
            let mag = if pa < pb {
                Order::Less
            } else if pa > pb {
                Order::Greater
            } else {
                lex_order(a, b)
            };
            let x = units(false, a, pa, m);
            let y = units(false, b, pb, m);
            &&& (mag == Order::Less) == (x < y)
            &&& (mag == Order::Equal) == (x == y)
            &&& (mag == Order::Greater) == (x > y)
        }),
{
    let ea = (pa - a.len() - m) as nat;
    let eb = (pb - b.len() - m) as nat;
    let x = digits_value(a) * pow10(ea);
    let y = digits_value(b) * pow10(eb);
    lemma_dv_bound(a);
    lemma_dv_bound(b);
    lemma_dv_lower(a);
    lemma_dv_lower(b);
    lemma_pow10_add(a.len(), ea);
    lemma_pow10_add(b.len(), eb);
    lemma_pow10_add((a.len() - 1) as nat, ea);
    lemma_pow10_add((b.len() - 1) as nat, eb);
    lemma_pow10_pos(ea);
    lemma_pow10_pos(eb);
    // x lies in [10^(pa - 1 - m), 10^(pa - m)), y likewise
    let xa_lo = pow10(((a.len() - 1) + ea) as nat);
    let xa_hi = pow10((a.len() + ea) as nat);
    let yb_lo = pow10(((b.len() - 1) + eb) as nat);
    let yb_hi = pow10((b.len() + eb) as nat);
    assert(xa_lo <= x < xa_hi) by (nonlinear_arith)
        requires
            pow10((a.len() - 1) as nat) <= digits_value(a) < pow10(a.len()),
            x == digits_value(a) * pow10(ea),
            xa_lo == pow10((a.len() - 1) as nat) * pow10(ea),
            xa_hi == pow10(a.len()) * pow10(ea),
            pow10(ea) >= 1,
    {
    }
    assert(yb_lo <= y < yb_hi) by (nonlinear_arith)
        requires
            pow10((b.len() - 1) as nat) <= digits_value(b) < pow10(b.len()),
            y == digits_value(b) * pow10(eb),
            yb_lo == pow10((b.len() - 1) as nat) * pow10(eb),
            yb_hi == pow10(b.len()) * pow10(eb),
            pow10(eb) >= 1,
    {
    }
    if pa < pb {
        lemma_pow10_mono((a.len() + ea) as nat, ((b.len() - 1) + eb) as nat);
    } else if pa > pb {
        lemma_pow10_mono((b.len() + eb) as nat, ((a.len() - 1) + ea) as nat);
    } else {
        let len = if a.len() >= b.len() { a.len() } else { b.len() };
        assert(ea == len - a.len());
        assert(eb == len - b.len());
        lemma_lex_padded(a, b, len);
    }
}

/// Numeric bounds order finite floats as the real numbers they denote:
/// for `±0.a × 10^pa` and `±0.b × 10^pb` with normal digits (as every
/// float text reads, see `lemma_float_text_normal`), `float_order` gives
/// `Less`, `Equal` or `Greater` exactly as the first value is below, at
/// or above the second (both counted in units of the smaller place of
/// their last digits).
pub proof fn lemma_float_order_numeric(an: bool, ad: Seq<char>, ap: int, bn: bool, bd: Seq<char>, bp: int)
    requires
        normal_digits(ad),
        normal_digits(bd),
    ensures
        ({
            let m = if ap - ad.len() <= bp - bd.len() { ap - ad.len() } else { bp - bd.len() };
            let o = float_order(FloatV::Fin(an, ad, ap), FloatV::Fin(bn, bd, bp));
            let x = units(an, ad, ap, m);
            let y = units(bn, bd, bp, m);
            &&& (o == Order::Less) == (x < y)
            &&& (o == Order::Equal) == (x == y)
            &&& (o == Order::Greater) == (x > y)
        }),
{
    let m = if ap - ad.len() <= bp - bd.len() { ap - ad.len() } else { bp - bd.len() };
    let ea = (ap - ad.len() - m) as nat;
    let eb = (bp - bd.len() - m) as nat;
    lemma_pow10_pos(ea);
    lemma_pow10_pos(eb);
    let xa = digits_value(ad) * pow10(ea);
    let xb = digits_value(bd) * pow10(eb);
    if ad.len() > 0 {
        lemma_dv_positive(ad);
        assert(xa >= 1) by (nonlinear_arith)
            requires
                digits_value(ad) >= 1,
                pow10(ea) >= 1,
                xa == digits_value(ad) * pow10(ea),
        ;
    } else {
        assert(digits_value(ad) == 0);
        assert(xa == 0);
    }
    if bd.len() > 0 {
        lemma_dv_positive(bd);
        assert(xb >= 1) by (nonlinear_arith)
            requires
                digits_value(bd) >= 1,
                pow10(eb) >= 1,
                xb == digits_value(bd) * pow10(eb),
        ;
    } else {
        assert(digits_value(bd) == 0);
        assert(xb == 0);
    }
    if ad.len() > 0 && bd.len() > 0 && an == bn {
        lemma_magnitude(ad, ap, bd, bp, m);
    }
}

/// A text that reads as a finite float holds normal significant digits.
pub proof fn lemma_float_text_normal(t: Seq<char>)
    ensures
        float_text(t) matches Some(FloatV::Fin(_, d, _)) ==> normal_digits(d),
{
    let body = if t.len() > 0 && (t[0] == '+' || t[0] == '-') {
        t.drop_first()
    } else {
        t
    };
    let k = crate::grammar::index_of_either(body, 'e', 'E');
    let mant = body.take(k);
    let p = crate::grammar::index_of_either(mant, '.', '.');
    let ip = mant.take(p);
    let fp = if p < mant.len() {
        mant.skip(p + 1)
    } else {
        Seq::<char>::empty()
    };
    if all_digits(ip) && all_digits(fp) {
        let all = ip + fp;
        assert(all_digits(all)) by {
            assert forall|i: int| 0 <= i < all.len() implies crate::grammar::is_digit(#[trigger] all[i]) by {
                if i < ip.len() {
                    assert(all[i] == ip[i]);
                } else {
                    assert(all[i] == fp[i - ip.len()]);
                }
            }
        }
        let lz = super::lead_zeros(all);
        lemma_lead_zeros(all);
        let rest = all.skip(lz as int);
        lemma_strip_trailing(rest);
    }
}

/// Skipping the leading zeros leaves a text that starts with another
/// character, if any.
proof fn lemma_lead_zeros(s: Seq<char>)
    ensures
        super::lead_zeros(s) <= s.len(),
        super::lead_zeros(s) < s.len() ==> s[super::lead_zeros(s) as int] != '0',
    decreases s.len(),
{
    if s.len() > 0 && s[0] == '0' {
        lemma_lead_zeros(s.drop_first());
    }
}

/// Dropping trailing zeros keeps a prefix of the text that, when not
/// empty, ends with another character.
proof fn lemma_strip_trailing(s: Seq<char>)
    ensures
        super::strip_trailing_zeros(s).len() <= s.len(),
        super::strip_trailing_zeros(s) == s.take(super::strip_trailing_zeros(s).len() as int),
        super::strip_trailing_zeros(s).len() > 0 ==> super::strip_trailing_zeros(s).last() != '0',
    decreases s.len(),
{
    if s.len() > 0 && s.last() == '0' {
        lemma_strip_trailing(s.drop_last());
        let r = super::strip_trailing_zeros(s.drop_last());
        assert(s.drop_last().take(r.len() as int) =~= s.take(r.len() as int));
    } else {
        assert(s.take(s.len() as int) =~= s);
    }
}

/// For two texts that read as finite floats, the order numeric bounds
/// use is the order of the real numbers the texts denote: a value below a
/// `min` bound compares `Less`, above a `max` bound `Greater`.
pub proof fn lemma_float_texts_order(a: Seq<char>, b: Seq<char>)
    requires
        float_text(a) matches Some(FloatV::Fin(_, _, _)),
        float_text(b) matches Some(FloatV::Fin(_, _, _)),
    ensures
        match (float_text(a), float_text(b)) {
            (Some(FloatV::Fin(an, ad, ap)), Some(FloatV::Fin(bn, bd, bp))) => {
                let m = if ap - ad.len() <= bp - bd.len() { ap - ad.len() } else { bp - bd.len() };
                let o = float_order(FloatV::Fin(an, ad, ap), FloatV::Fin(bn, bd, bp));
                &&& (o == Order::Less) == (units(an, ad, ap, m) < units(bn, bd, bp, m))
                &&& (o == Order::Equal) == (units(an, ad, ap, m) == units(bn, bd, bp, m))
                &&& (o == Order::Greater) == (units(an, ad, ap, m) > units(bn, bd, bp, m))
            },
            _ => true,
        },
{
    lemma_float_text_normal(a);
    lemma_float_text_normal(b);
    if let (Some(FloatV::Fin(an, ad, ap)), Some(FloatV::Fin(bn, bd, bp))) = (float_text(a), float_text(b)) {
        lemma_float_order_numeric(an, ad, ap, bn, bd, bp);
    }
}

} // verus!
