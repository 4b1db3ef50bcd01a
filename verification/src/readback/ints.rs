//! Integer literals as the writer groups them: the grouping of a valid
//! integer is a valid integer, and grouping it again changes nothing.
use vstd::prelude::*;
use crate::grammar::{all_digits, grouped_tail, is_digit, spec_grouped_int, spec_is_int, spec_plain_int, strip_sign};
use crate::serialize::{all_ascii, group3, int_spec, without_underscores};

verus! {

/// Dropping underscores from two texts in a row drops them from each.
proof fn lemma_wu_concat(a: Seq<char>, b: Seq<char>)
    ensures
        without_underscores(a + b) == without_underscores(a) + without_underscores(b),
    decreases b.len(),
{
    if b.len() == 0 {
        assert(a + b =~= a);
        assert(without_underscores(b) =~= Seq::<char>::empty());
        assert(without_underscores(a) + without_underscores(b) =~= without_underscores(a));
    } else {
        assert((a + b).drop_last() =~= a + b.drop_last());
        assert((a + b).last() == b.last());
        lemma_wu_concat(a, b.drop_last());
        if b.last() == '_' {
        } else {
            assert(without_underscores(a + b) =~= without_underscores(a) + without_underscores(b));
        }
    }
}

/// A lone underscore is dropped.
proof fn lemma_wu_underscore()
    ensures
        without_underscores(seq!['_']) == Seq::<char>::empty(),
{
    let u = seq!['_'];
    assert(u.last() == '_');
    assert(u.drop_last() =~= Seq::<char>::empty());
    assert(without_underscores(Seq::<char>::empty()) == Seq::<char>::empty());
}

/// Digits lose nothing when underscores are dropped.
proof fn lemma_wu_digits(a: Seq<char>)
    requires
        all_digits(a),
    ensures
        without_underscores(a) == a,
    decreases a.len(),
{
    if a.len() > 0 {
        assert(all_digits(a.drop_last()));
        lemma_wu_digits(a.drop_last());
        assert(is_digit(a.last()));
        assert(a.drop_last().push(a.last()) =~= a);
    } else {
        assert(a =~= Seq::<char>::empty());
    }
}

/// The grouped tail of an integer is digits once underscores are dropped.
proof fn lemma_wu_grouped_tail(x: Seq<char>)
    requires
        grouped_tail(x),
    ensures
        all_digits(without_underscores(x)),
    decreases x.len(),
{
    if x.len() > 0 {
        lemma_wu_grouped_tail(x.skip(4));
        assert(x =~= x.take(4) + x.skip(4));
        lemma_wu_concat(x.take(4), x.skip(4));
        let h = x.take(4);
        assert(h =~= seq!['_'] + h.skip(1));
        lemma_wu_concat(seq!['_'], h.skip(1));
        lemma_wu_underscore();
        assert(all_digits(h.skip(1)));
        lemma_wu_digits(h.skip(1));
        let w = without_underscores(x);
        assert(w =~= h.skip(1) + without_underscores(x.skip(4)));
    } else {
        assert(without_underscores(x) =~= Seq::<char>::empty());
    }
}

/// One more group behind a grouped tail.
proof fn lemma_grouped_tail_push(x: Seq<char>, g: Seq<char>)
    requires
        grouped_tail(x),
        g.len() == 3,
        all_digits(g),
    ensures
        grouped_tail(x + seq!['_'] + g),
    decreases x.len(),
{
    let y = x + seq!['_'] + g;
    if x.len() == 0 {
        assert(y =~= seq!['_'] + g);
        assert(y.skip(4) =~= Seq::<char>::empty());
        assert(y[1] == g[0] && y[2] == g[1] && y[3] == g[2]);
        assert(is_digit(g[0]) && is_digit(g[1]) && is_digit(g[2]));
        assert(grouped_tail(y.skip(4)));
    } else {
        lemma_grouped_tail_push(x.skip(4), g);
        assert(y.skip(4) =~= x.skip(4) + seq!['_'] + g);
        assert(y[0] == x[0] && y[1] == x[1] && y[2] == x[2] && y[3] == x[3]);
    }
}

/// Grouping digits and dropping the underscores again gives the digits.
proof fn lemma_group3_wu(d: Seq<char>)
    requires
        all_digits(d),
    ensures
        without_underscores(group3(d)) == d,
    decreases d.len(),
{
    if d.len() <= 3 {
        lemma_wu_digits(d);
    } else {
        let h = d.take(d.len() - 3);
        let t = d.skip(d.len() - 3);
        assert(all_digits(h));
        assert(all_digits(t));
        lemma_group3_wu(h);
        reveal_strlit("_");
        assert("_"@ =~= seq!['_']);
        lemma_wu_concat(group3(h) + seq!['_'], t);
        lemma_wu_concat(group3(h), seq!['_']);
        lemma_wu_underscore();
        lemma_wu_digits(t);
        assert(h + t =~= d);
        assert(group3(d) == group3(h) + seq!['_'] + t);
    }
}

/// Digits with no leading zero, grouped, form an integer literal that
/// starts with the same digit.
proof fn lemma_group3_int(d: Seq<char>)
    requires
        d.len() >= 1,
        all_digits(d),
        d == seq!['0'] || '1' <= d[0] <= '9',
    ensures
        spec_plain_int(group3(d)) || spec_grouped_int(group3(d)),
        group3(d).len() >= 1,
        group3(d)[0] == d[0],
        d.len() > 3 ==> spec_grouped_int(group3(d)),
    decreases d.len(),
{
    if d.len() > 3 {
        let h = d.take(d.len() - 3);
        let t = d.skip(d.len() - 3);
        assert(all_digits(h));
        assert(all_digits(t));
        assert(h[0] == d[0]);
        assert(d != seq!['0']);
        lemma_group3_int(h);
        reveal_strlit("_");
        assert("_"@ =~= seq!['_']);
        let gh = group3(h);
        let gd = group3(d);
        assert(gd == gh + seq!['_'] + t);
        if h.len() <= 3 {
            let g = h.len() as int;
            assert(gd.take(g) =~= h);
            assert(gd.skip(g) =~= Seq::<char>::empty() + seq!['_'] + t);
            assert(grouped_tail(Seq::<char>::empty()));
            lemma_grouped_tail_push(Seq::<char>::empty(), t);
            assert(all_digits(gd.take(g)));
        } else {
            let g = choose|g: int|
                1 <= g <= 3 && g < gh.len() && all_digits(#[trigger] gh.take(g)) && grouped_tail(gh.skip(g));
            assert(gd.take(g) =~= gh.take(g));
            assert(gd.skip(g) =~= gh.skip(g) + seq!['_'] + t);
            lemma_grouped_tail_push(gh.skip(g), t);
            assert(all_digits(gd.take(g)));
        }
        assert(gd[0] == gh[0]);
    }
}

/// What is known of an integer literal's digits once underscores are
/// dropped: digits, not empty, with no leading zero.
proof fn lemma_int_clean(t: Seq<char>)
    requires
        spec_is_int(t),
    ensures
        without_underscores(strip_sign(t)).len() >= 1,
        all_digits(without_underscores(strip_sign(t))),
        without_underscores(strip_sign(t)) == seq!['0'] || '1' <= without_underscores(strip_sign(t))[0] <= '9',
{
    let d = strip_sign(t);
    if spec_plain_int(d) {
        assert(all_digits(d));
        lemma_wu_digits(d);
    } else {
        let g = choose|g: int|
            1 <= g <= 3 && g < d.len() && all_digits(#[trigger] d.take(g)) && grouped_tail(d.skip(g));
        assert(d =~= d.take(g) + d.skip(g));
        lemma_wu_concat(d.take(g), d.skip(g));
        lemma_wu_digits(d.take(g));
        lemma_wu_grouped_tail(d.skip(g));
        let w = without_underscores(d);
        assert(w =~= d.take(g) + without_underscores(d.skip(g)));
        assert(w[0] == d[0]);
        assert forall|i: int| 0 <= i < w.len() implies is_digit(#[trigger] w[i]) by {
            if i < g {
                assert(w[i] == d.take(g)[i]);
            } else {
                assert(w[i] == without_underscores(d.skip(g))[i - g]);
            }
        }
    }
}

/// An integer literal without its underscores is an integer literal that
/// keeps its sign and digits, loses nothing more when underscores are
/// dropped again, and is grouped as the literal is.
pub(crate) proof fn lemma_int_plain(t: Seq<char>)
    requires
        spec_is_int(t),
    ensures
        spec_is_int(without_underscores(t)),
        without_underscores(without_underscores(t)) == without_underscores(t),
        int_spec(without_underscores(t)) == int_spec(t),
        int_spec(t) matches Some(g) && without_underscores(g) == without_underscores(t),
{
    let signed = t.len() > 0 && (t[0] == '+' || t[0] == '-');
    let d = strip_sign(t);
    lemma_int_clean(t);
    let clean = without_underscores(d);
    lemma_wu_digits(clean);
    let sign = if signed {
        t.take(1)
    } else {
        Seq::<char>::empty()
    };
    assert(t =~= sign + d);
    lemma_wu_concat(sign, d);
    if signed {
        assert(sign.len() == 1 && sign[0] == t[0]);
        assert(sign.last() != '_');
        assert(sign.drop_last() =~= Seq::<char>::empty());
        assert(without_underscores(sign.drop_last()) == Seq::<char>::empty());
        assert(without_underscores(sign) == without_underscores(sign.drop_last()).push(sign.last()));
        assert(without_underscores(sign) =~= sign);
    } else {
        assert(without_underscores(sign) =~= sign);
    }
    assert(all_ascii(clean)) by {
        assert forall|i: int| 0 <= i < clean.len() implies (clean[i] as u32) < 0x80 by {
            assert(is_digit(clean[i]));
        }
    }
    if signed {
        assert(t.skip(1) == d);
        assert(t.take(1) == sign);
    } else {
        assert(t == d);
    }
    assert(int_spec(t) == Some(sign + group3(clean)));
    lemma_group3_wu(clean);
    lemma_wu_concat(sign, group3(clean));
    let w = without_underscores(t);
    assert(w =~= sign + clean);
    lemma_wu_concat(sign, clean);
    if signed {
        assert(w[0] == t[0]);
        assert(w.drop_first() =~= clean);
        assert(w.skip(1) =~= clean);
        assert(w.take(1) =~= sign);
    } else {
        assert(w =~= clean);
        assert(clean[0] != '+' && clean[0] != '-');
    }
    assert(strip_sign(w) == clean);
    assert(spec_plain_int(clean));
}

/// The writer's grouping of a valid integer literal is a valid integer
/// literal, and grouping that again gives it back.
pub(crate) proof fn lemma_int_spec_facts(t: Seq<char>)
    requires
        spec_is_int(t),
    ensures
        int_spec(t) is Some,
        spec_is_int(int_spec(t)->Some_0),
        int_spec(int_spec(t)->Some_0) == int_spec(t),
{
    let signed = t.len() > 0 && (t[0] == '+' || t[0] == '-');
    let sign = if signed {
        t.take(1)
    } else {
        Seq::<char>::empty()
    };
    let d = strip_sign(t);
    lemma_int_clean(t);
    let clean = without_underscores(d);
    assert(all_ascii(clean)) by {
        assert forall|i: int| 0 <= i < clean.len() implies (clean[i] as u32) < 0x80 by {
            assert(is_digit(clean[i]));
        }
    }
    if signed {
        assert(t.skip(1) == d);
    } else {
        assert(t == d);
    }
    let g = group3(clean);
    lemma_group3_int(clean);
    lemma_group3_wu(clean);
    let u = sign + g;
    assert(int_spec(t) == Some(u));
    // the grouping reads as an integer
    if signed {
        assert(u[0] == t[0]);
        assert(u.skip(1) =~= g);
        assert(strip_sign(u) == g);
    } else {
        assert(u =~= g);
        assert(!(g[0] == '+' || g[0] == '-'));
        assert(strip_sign(u) == g);
    }
    // and groups to itself
    if signed {
        assert(u.take(1) =~= sign);
    }
}

} // verus!
