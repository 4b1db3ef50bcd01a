//! `"""` blocks read back: the lines the writer writes for a multi-line
//! string read back as that string.
use vstd::prelude::*;
use crate::deserialize::{
    all_ws_spec, block_scan, block_text, common_indent, lead_spaces, lead_ws, pieces, trims_to_triple_spec, LineV,
};
use crate::grammar::{index_of_either, lemma_index_of_either_bounds};
use crate::lexer::{is_ws, trim_end_len, unescape, ErrV, EscFail};
use crate::serialize::{block_line, block_lines, double_backslashes, spaces};
use super::lemma_unescape_shift;

verus! {

/// Lines joined by newlines.
pub open spec fn join_nl(b: Seq<Seq<char>>) -> Seq<char>
    decreases b.len(),
{
    if b.len() == 0 {
        Seq::empty()
    } else if b.len() == 1 {
        b[0]
    } else {
        b[0] + seq!['\n'] + join_nl(b.drop_first())
    }
}

/// Joining the pieces of a text between newlines gives the text back;
/// no piece holds a newline; the last piece is empty exactly when the
/// text is empty or ends in a newline.
proof fn lemma_join_pieces(x: Seq<char>)
    ensures
        pieces(x).len() >= 1,
        join_nl(pieces(x)) == x,
        forall|j: int| 0 <= j < pieces(x).len() ==> !(#[trigger] pieces(x)[j]).contains('\n'),
        pieces(x).last().len() == 0 <==> (x.len() == 0 || x.last() == '\n'),
    decreases x.len(),
{
    let k = index_of_either(x, '\n', '\n');
    lemma_index_of_either_bounds(x, '\n', '\n');
    if k >= x.len() {
        assert(pieces(x) == seq![x]);
        assert forall|j: int| 0 <= j < x.len() implies x[j] != '\n' by {}
    } else {
        let y = x.skip(k + 1);
        lemma_join_pieces(y);
        let p = pieces(x);
        assert(p == seq![x.take(k)] + pieces(y));
        assert(p.drop_first() =~= pieces(y));
        assert(join_nl(p) == x.take(k) + seq!['\n'] + join_nl(pieces(y)));
        assert(x =~= x.take(k) + seq!['\n'] + y);
        assert forall|j: int| 0 <= j < p.len() implies !(#[trigger] p[j]).contains('\n') by {
            if j == 0 {
                assert forall|i: int| 0 <= i < x.take(k).len() implies x.take(k)[i] != '\n' by {}
            } else {
                assert(p[j] == pieces(y)[j - 1]);
            }
        }
        assert(p.last() == pieces(y).last());
        if y.len() > 0 {
            assert(y.last() == x.last());
        }
    }
}

/// Joining one more line.
proof fn lemma_join_nl_push(a: Seq<Seq<char>>, x: Seq<char>)
    requires
        a.len() >= 1,
    ensures
        join_nl(a.push(x)) == join_nl(a) + seq!['\n'] + x,
    decreases a.len(),
{
    if a.len() == 1 {
        assert(a.push(x).drop_first() =~= seq![x]);
        assert(join_nl(seq![x]) == x);
        assert(a.push(x)[0] == a[0]);
    } else {
        assert(a.push(x).drop_first() =~= a.drop_first().push(x));
        lemma_join_nl_push(a.drop_first(), x);
        assert(a.push(x)[0] == a[0]);
    }
}

/// How one character is written inside a block: a backslash doubled,
/// any other character as it is.
pub open spec fn doubled(c: char) -> Seq<char> {
    if c == '\\' {
        seq!['\\', '\\']
    } else {
        seq![c]
    }
}

/// Doubling backslashes, read from the front.
proof fn lemma_doubled_front(l: Seq<char>)
    requires
        l.len() > 0,
    ensures
        double_backslashes(l) == doubled(l[0]) + double_backslashes(l.drop_first()),
    decreases l.len(),
{
    reveal_strlit("\\\\");
    if l.len() == 1 {
        assert(l.drop_last() =~= Seq::<char>::empty());
        assert(l.drop_first() =~= Seq::<char>::empty());
        assert(double_backslashes(Seq::<char>::empty()) =~= Seq::<char>::empty());
        assert(double_backslashes(l) =~= doubled(l[0]));
    } else {
        lemma_doubled_front(l.drop_last());
        assert(l.drop_last().drop_first() =~= l.drop_first().drop_last());
        assert(l.drop_first().last() == l.last());
        assert(l.drop_last()[0] == l[0]);
        assert(double_backslashes(l) =~= doubled(l[0]) + double_backslashes(l.drop_first()));
    }
}

/// What is known of a line with its backslashes doubled: it is empty
/// exactly when the line is, starts with a space exactly when the line
/// does, and holds a newline only where the line does.
proof fn lemma_doubled_facts(l: Seq<char>)
    ensures
        double_backslashes(l).len() >= l.len(),
        l.len() > 0 ==> (double_backslashes(l)[0] == ' ' <==> l[0] == ' '),
        !l.contains('\n') ==> !double_backslashes(l).contains('\n'),
    decreases l.len(),
{
    if l.len() > 0 {
        lemma_doubled_front(l);
        lemma_doubled_facts(l.drop_first());
        let d = double_backslashes(l);
        let e = doubled(l[0]);
        let r = double_backslashes(l.drop_first());
        if !l.contains('\n') {
            assert(!l.drop_first().contains('\n')) by {
                if l.drop_first().contains('\n') {
                    let i = choose|i: int| 0 <= i < l.drop_first().len() && l.drop_first()[i] == '\n';
                    assert(l[i + 1] == '\n');
                }
            }
            assert forall|i: int| 0 <= i < d.len() implies d[i] != '\n' by {
                if i < e.len() {
                    assert(d[i] == e[i]);
                } else {
                    assert(d[i] == r[i - e.len()]);
                }
            }
        }
    }
}

/// A line with its backslashes doubled decodes back to the line.
proof fn lemma_unescape_doubled(l: Seq<char>)
    ensures
        unescape(double_backslashes(l), 0) == Ok::<Seq<char>, EscFail>(l),
    decreases l.len(),
{
    if l.len() == 0 {
        assert(double_backslashes(l) =~= Seq::<char>::empty());
        assert(l =~= Seq::<char>::empty());
    } else {
        lemma_doubled_front(l);
        let e = doubled(l[0]);
        let r = double_backslashes(l.drop_first());
        lemma_unescape_doubled(l.drop_first());
        lemma_unescape_shift(e, r, 0);
        let t = e + r;
        assert(t[0] == e[0]);
        if l[0] == '\\' {
            assert(t[1] == '\\');
        }
        assert(seq![l[0]] + l.drop_first() =~= l);
    }
}

/// The lines a block holds for a multi-line text: the text's lines,
/// without the empty one after a final newline.
pub open spec fn block_body(text: Seq<char>) -> Seq<Seq<char>> {
    if closes_alone(text) {
        pieces(text.drop_last())
    } else {
        pieces(text)
    }
}

/// Whether a block's closer stands on a line of its own: the text ends in
/// a newline.
pub open spec fn closes_alone(text: Seq<char>) -> bool {
    text.len() > 0 && text.last() == '\n'
}

/// How the writer writes a content line of a block whose content starts
/// at column `pad`: an empty line stays empty.
pub open spec fn block_raw(l: Seq<char>, pad: nat) -> Seq<char> {
    if l.len() == 0 {
        Seq::empty()
    } else {
        spaces(pad) + double_backslashes(l)
    }
}

/// What follows a line's leading spaces.
pub open spec fn after_lead(r: Seq<char>) -> Seq<char> {
    r.skip(lead_spaces(r) as int)
}

/// Whether a line, without its trailing whitespace, ends in `"""`.
pub open spec fn ends_triple(r: Seq<char>) -> bool {
    let te = trim_end_len(r, r.len() as int);
    te >= 3 && r[te - 3] == '"' && r[te - 2] == '"' && r[te - 1] == '"'
}

/// A line of a block that the reader takes as content when written: empty,
/// or, with its backslashes doubled, holding something besides whitespace
/// and not ending (before trailing whitespace) in `"""`.
pub open spec fn content_line(l: Seq<char>) -> bool {
    l.len() == 0 || (!all_ws_spec(after_lead(double_backslashes(l))) && !ends_triple(
        after_lead(double_backslashes(l)),
    ))
}

/// A multi-line string the writer writes as a `"""` block that reads back
/// as the string: every line but one that carries the closer is one the
/// reader takes as content, and, where some line is not empty, some line
/// not empty starts with no space.
pub open spec fn block_ok(text: Seq<char>) -> bool {
    let b = block_body(text);
    &&& text.contains('\n')
    &&& forall|j: int| 0 <= j < b.len() && (closes_alone(text) || j < b.len() - 1) ==> content_line(#[trigger] b[j])
    &&& (exists|j: int| 0 <= j < b.len() && (#[trigger] b[j]).len() > 0 && b[j][0] != ' ') || (forall|j: int|
        0 <= j < b.len() ==> (#[trigger] b[j]).len() == 0)
}

/// Whether the last line of a multi-line text, carrying the closer, is
/// whitespace that starts with something other than a space: behind a
/// list marker, its block would close a line early.
pub open spec fn closer_line_blank(text: Seq<char>) -> bool {
    let w = double_backslashes(block_body(text).last());
    &&& !closes_alone(text)
    &&& w.len() > 0
    &&& w[0] != ' '
    &&& all_ws_spec(w)
}

/// The raw lines the writer writes for a block after its opening `"""`:
/// the content lines at column `pad`, then the closer at column `closer`
/// on a line of its own, or, for a text without a final newline, right
/// after the last content line.
pub open spec fn block_raws(text: Seq<char>, pad: nat, closer: nat) -> Seq<Seq<char>> {
    let b = block_body(text);
    if closes_alone(text) {
        Seq::new(b.len(), |j: int| block_raw(b[j], pad)).push(spaces(closer) + seq!['"', '"', '"'])
    } else {
        Seq::new((b.len() - 1) as nat, |j: int| block_raw(b[j], pad)).push(
            spaces(pad) + double_backslashes(b.last()) + seq!['"', '"', '"'],
        )
    }
}

/// Raw lines, each ended by a newline.
pub open spec fn raws_text(r: Seq<Seq<char>>) -> Seq<char>
    decreases r.len(),
{
    if r.len() == 0 {
        Seq::empty()
    } else {
        r[0] + seq!['\n'] + raws_text(r.drop_first())
    }
}

/// One more raw line.
proof fn lemma_raws_text_push(a: Seq<Seq<char>>, x: Seq<char>)
    ensures
        raws_text(a.push(x)) == raws_text(a) + x + seq!['\n'],
    decreases a.len(),
{
    if a.len() == 0 {
        assert(a.push(x).drop_first() =~= Seq::<Seq<char>>::empty());
        assert(raws_text(Seq::<Seq<char>>::empty()) == Seq::<char>::empty());
        assert(raws_text(a) == Seq::<char>::empty());
        assert(a.push(x)[0] == x);
        assert(raws_text(a.push(x)) =~= raws_text(a) + x + seq!['\n']);
    } else {
        assert(a.push(x).drop_first() =~= a.drop_first().push(x));
        lemma_raws_text_push(a.drop_first(), x);
        assert(a.push(x)[0] == a[0]);
        assert(raws_text(a.push(x)) =~= raws_text(a) + x + seq!['\n']);
    }
}

/// The writer's block lines are the raw lines of the content.
proof fn lemma_block_lines_raws(ls: Seq<Seq<char>>, pad: nat)
    ensures
        block_lines(ls, spaces(pad)) == raws_text(Seq::new(ls.len(), |j: int| block_raw(ls[j], pad))),
    decreases ls.len(),
{
    reveal_strlit("\n");
    let r = Seq::new(ls.len(), |j: int| block_raw(ls[j], pad));
    if ls.len() == 0 {
        assert(r =~= Seq::<Seq<char>>::empty());
    } else {
        lemma_block_lines_raws(ls.drop_last(), pad);
        let r0 = Seq::new(ls.drop_last().len(), |j: int| block_raw(ls.drop_last()[j], pad));
        assert(r =~= r0.push(block_raw(ls.last(), pad)));
        lemma_raws_text_push(r0, block_raw(ls.last(), pad));
        assert(block_line(ls.last(), spaces(pad)) =~= block_raw(ls.last(), pad) + seq!['\n']);
    }
}

/// What the writer writes for a multi-line text after `"""`, with the
/// newline that ends the scalar, is the block's raw lines.
pub(crate) proof fn lemma_block_written(text: Seq<char>, content_col: nat, closer_col: nat)
    requires
        text.contains('\n'),
    ensures
        crate::serialize::triple_spec(text, content_col, closer_col) + seq!['\n'] == seq!['"', '"', '"', '\n']
            + raws_text(block_raws(text, content_col + 2, closer_col)),
{
    reveal_strlit("\"\"\"\n");
    reveal_strlit("\"\"\"");
    let pad = content_col + 2;
    let b = block_body(text);
    let closer = spaces(closer_col) + seq!['"', '"', '"'];
    if closes_alone(text) {
        lemma_block_lines_raws(b, pad);
        let r0 = Seq::new(b.len(), |j: int| block_raw(b[j], pad));
        lemma_raws_text_push(r0, closer);
    } else {
        lemma_join_pieces(text);
        assert(text.len() > 0);
        let ls = pieces(text);
        assert(ls.last().len() > 0);
        lemma_block_lines_raws(ls.drop_last(), pad);
        let r0 = Seq::new((b.len() - 1) as nat, |j: int| block_raw(b[j], pad));
        assert(r0 =~= Seq::new(ls.drop_last().len(), |j: int| block_raw(ls.drop_last()[j], pad)));
        let last = spaces(pad) + double_backslashes(b.last()) + seq!['"', '"', '"'];
        lemma_raws_text_push(r0, last);
    }
}

/// Leading spaces are part of the line.
pub(crate) proof fn lemma_lead_le(w: Seq<char>)
    ensures
        lead_spaces(w) <= w.len(),
        forall|j: int| 0 <= j < lead_spaces(w) ==> w[j] == ' ',
        lead_spaces(w) < w.len() ==> w[lead_spaces(w) as int] != ' ',
    decreases w.len(),
{
    if w.len() > 0 && w[0] == ' ' {
        lemma_lead_le(w.drop_first());
        assert forall|j: int| 0 <= j < lead_spaces(w) implies w[j] == ' ' by {
            if j > 0 {
                assert(w[j] == w.drop_first()[j - 1]);
            }
        }
        if lead_spaces(w) < w.len() {
            assert(w[lead_spaces(w) as int] == w.drop_first()[lead_spaces(w.drop_first()) as int]);
        }
    }
}

/// Leading spaces behind more spaces.
pub(crate) proof fn lemma_lead_add(c: nat, w: Seq<char>)
    ensures
        lead_spaces(spaces(c) + w) == c + lead_spaces(w),
        after_lead(spaces(c) + w) == after_lead(w),
    decreases c,
{
    if c == 0 {
        assert(spaces(0) + w =~= w);
    } else {
        lemma_lead_add((c - 1) as nat, w);
        let x = spaces(c) + w;
        let y = spaces((c - 1) as nat) + w;
        assert(x.drop_first() =~= y);
        let n = (c + lead_spaces(w)) as int;
        lemma_lead_le(w);
        assert(x.skip(n) =~= x.drop_first().skip(n - 1));
    }
}

/// Leading spaces of a line followed by more text, when the line holds
/// something besides spaces.
proof fn lemma_lead_concat(w: Seq<char>, x: Seq<char>)
    requires
        lead_spaces(w) < w.len(),
    ensures
        lead_spaces(w + x) == lead_spaces(w),
        after_lead(w + x) == after_lead(w) + x,
    decreases w.len(),
{
    if w[0] == ' ' {
        assert((w + x).drop_first() =~= w.drop_first() + x);
        lemma_lead_concat(w.drop_first(), x);
        assert(after_lead(w + x) =~= after_lead((w + x).drop_first()));
        assert(after_lead(w) =~= after_lead(w.drop_first()));
    } else {
        assert((w + x)[0] == w[0]);
        assert((w + x).skip(0) =~= w + x);
        assert(w.skip(0) =~= w);
    }
}

/// Leading whitespace stops at the first character that is not.
proof fn lemma_lead_ws_bound(t: Seq<char>, i: int)
    requires
        0 <= i < t.len(),
        !is_ws(t[i]),
    ensures
        lead_ws(t) <= i,
    decreases i,
{
    if i > 0 && is_ws(t[0]) {
        lemma_lead_ws_bound(t.drop_first(), i - 1);
    }
}

/// A line that trims to `"""` ends in `"""` before its trailing
/// whitespace.
proof fn lemma_trims_ends(r: Seq<char>)
    requires
        trims_to_triple_spec(r),
    ensures
        ends_triple(r),
{
}

/// Text with something besides whitespace, then `"""`, does not trim to
/// `"""`.
proof fn lemma_not_trims(a: Seq<char>)
    requires
        !all_ws_spec(a),
    ensures
        !trims_to_triple_spec(a + seq!['"', '"', '"']),
        trim_end_len(a + seq!['"', '"', '"'], a.len() + 3int) == a.len() + 3,
{
    let t = a + seq!['"', '"', '"'];
    let i = choose|i: int| 0 <= i < a.len() && !is_ws(a[i]);
    assert(t[i] == a[i]);
    lemma_lead_ws_bound(t, i);
    assert(t[t.len() - 1] == '"');
}

/// The reader's lines from `i0` on are the raw lines.
pub open spec fn raws_match(ls: Seq<LineV>, i0: int, r: Seq<Seq<char>>) -> bool {
    &&& 0 <= i0
    &&& i0 + r.len() <= ls.len()
    &&& forall|j: int|
        0 <= j < r.len() ==> ls[i0 + j].raw == #[trigger] r[j] && ls[i0 + j].indent == lead_spaces(r[j]) && ls[i0
            + j].rest == after_lead(r[j])
}

/// The content entries the reader collects for a block: each content
/// line's raw text (empty for an empty line), number and indent.
pub open spec fn block_content(ls: Seq<LineV>, i0: int, text: Seq<char>, pad: nat) -> Seq<(Seq<char>, nat, nat)> {
    let b = block_body(text);
    Seq::new(b.len(), |j: int| (block_raw(b[j], pad), ls[i0 + j].no, ls[i0 + j].indent))
}

/// What is known of a block's lines.
proof fn lemma_body_facts(text: Seq<char>)
    requires
        text.contains('\n'),
    ensures
        block_body(text).len() >= 1,
        forall|j: int| 0 <= j < block_body(text).len() ==> !(#[trigger] block_body(text)[j]).contains('\n'),
        !closes_alone(text) ==> block_body(text).last().len() > 0,
        closes_alone(text) ==> join_nl(block_body(text)) + seq!['\n'] == text,
        !closes_alone(text) ==> join_nl(block_body(text)) == text,
{
    if closes_alone(text) {
        lemma_join_pieces(text.drop_last());
        assert(text.drop_last() + seq!['\n'] =~= text);
    } else {
        lemma_join_pieces(text);
    }
}

/// The reader collects the content lines of a written block, from its
/// `j`-th line on, and stops after the closer.
#[verifier::spinoff_prover]
#[verifier::rlimit(60)]
proof fn lemma_block_scan(ls: Seq<LineV>, i0: int, text: Seq<char>, pad: nat, keycol: nat, j: int)
    requires
        block_ok(text),
        keycol <= pad,
        pad == keycol ==> !closer_line_blank(text),
        raws_match(ls, i0, block_raws(text, pad, keycol)),
        0 <= j,
        closes_alone(text) ==> j <= block_body(text).len(),
        !closes_alone(text) ==> j <= block_body(text).len() - 1,
    ensures
        block_scan(ls, i0 + j, keycol, block_content(ls, i0, text, pad).take(j)) == Ok::<
            (Seq<(Seq<char>, nat, nat)>, bool, int),
            ErrV,
        >((block_content(ls, i0, text, pad), closes_alone(text), i0 + block_raws(text, pad, keycol).len())),
    decreases block_body(text).len() - j,
{
    reveal_strlit("\"\"\"");
    let b = block_body(text);
    let n = b.len() as int;
    let c = block_content(ls, i0, text, pad);
    let r = block_raws(text, pad, keycol);
    lemma_body_facts(text);
    let q3 = seq!['"', '"', '"'];
    if closes_alone(text) && j == n {
        assert(r[n] == spaces(keycol) + q3);
        lemma_lead_add(keycol, q3);
        assert(q3.skip(0) =~= q3);
        let l = ls[i0 + n];
        assert(l.indent == keycol && l.rest == q3);
        assert(!crate::lexer::is_ws(q3[0]));
        assert(!all_ws_spec(q3));
        assert(lead_ws(q3) == 0);
        assert(trim_end_len(q3, 3) == 3);
        assert(trims_to_triple_spec(q3));
        assert(c.take(j) =~= c);
    } else if !closes_alone(text) && j == n - 1 {
        let w = double_backslashes(b.last());
        lemma_doubled_facts(b.last());
        assert(w.len() > 0);
        assert(r[n - 1] == spaces(pad) + w + q3);
        assert(spaces(pad) + w + q3 =~= spaces(pad) + (w + q3));
        lemma_lead_add(pad, w + q3);
        lemma_lead_le(w);
        let l = ls[i0 + j];
        let raw = spaces(pad) + w + q3;
        if lead_spaces(w) < w.len() {
            lemma_lead_concat(w, q3);
            let rest = after_lead(w) + q3;
            assert(l.indent == pad + lead_spaces(w));
            assert(l.rest == rest);
            assert(!all_ws_spec(rest)) by {
                assert(!crate::lexer::is_ws(rest[rest.len() - 1]));
            }
            assert(trim_end_len(rest, rest.len() as int) == rest.len()) by {
                assert(!crate::lexer::is_ws(rest[rest.len() - 1]));
            }
            if !all_ws_spec(after_lead(w)) {
                lemma_not_trims(after_lead(w));
            } else {
                assert(l.indent != keycol) by {
                    if pad == keycol && lead_spaces(w) == 0 {
                        assert(after_lead(w) =~= w);
                        assert(w[0] != ' ');
                    }
                }
            }
            assert(rest[rest.len() - 1] == '"' && rest[rest.len() - 2] == '"' && rest[rest.len() - 3] == '"');
        } else {
            assert(after_lead(w) =~= Seq::<char>::empty());
            assert(lead_spaces(w + q3) == w.len()) by {
                lemma_lead_add(w.len(), q3);
                assert(forall|i: int| 0 <= i < w.len() ==> w[i] == ' ');
                assert(w =~= spaces(w.len()));
                assert(lead_spaces(q3) == 0);
            }
            assert(after_lead(w + q3) =~= q3) by {
                lemma_lead_add(w.len(), q3);
                assert(w =~= spaces(w.len()));
                assert(after_lead(q3) =~= q3) by {
                    assert(q3.skip(0) =~= q3);
                }
            }
            assert(l.indent == pad + w.len());
            assert(l.rest == q3);
            assert(!crate::lexer::is_ws(q3[0]));
            assert(!all_ws_spec(q3));
            assert(trim_end_len(q3, 3) == 3);
        }
        lemma_lead_le(raw);
        assert(l.raw.take(l.indent + l.rest.len() - 3) =~= spaces(pad) + w);
        assert(block_raw(b[n - 1], pad) == spaces(pad) + w);
        assert(c.take(j).push((spaces(pad) + w, l.no, l.indent)) =~= c);
    } else {
        let lj = b[j];
        assert(content_line(lj));
        let l = ls[i0 + j];
        assert(r[j] == block_raw(lj, pad));
        if lj.len() == 0 {
            assert(r[j] =~= Seq::<char>::empty());
            assert(after_lead(Seq::<char>::empty()) =~= Seq::<char>::empty());
            assert(all_ws_spec(l.rest));
        } else {
            let w = double_backslashes(lj);
            lemma_lead_add(pad, w);
            assert(l.indent == pad + lead_spaces(w));
            assert(l.rest == after_lead(w));
            if trims_to_triple_spec(l.rest) {
                lemma_trims_ends(l.rest);
            }
        }
        assert(c.take(j).push(c[j]) =~= c.take(j + 1));
        lemma_block_scan(ls, i0, text, pad, keycol, j + 1);
    }
}

/// The common indent of a written block's content is its content column,
/// given a content line that starts with no space (at `w`, from `k` on) or
/// the column seen already.
proof fn lemma_block_common(c: Seq<(Seq<char>, nat, nat)>, b: Seq<Seq<char>>, pad: nat, k: int, seen: bool, common: nat, w: int)
    requires
        c.len() == b.len(),
        forall|j: int| 0 <= j < c.len() ==> (#[trigger] c[j]).0 == block_raw(b[j], pad),
        0 <= k,
        seen ==> common >= pad,
        (seen && common <= pad) || (k <= w < c.len() && b[w].len() > 0 && b[w][0] != ' '),
    ensures
        common_indent(c, k, seen, common) == pad,
    decreases c.len() - k,
{
    if k < c.len() {
        if c[k].0.len() > 0 {
            assert(b[k].len() > 0);
            let d = double_backslashes(b[k]);
            lemma_lead_add(pad, d);
            lemma_doubled_facts(b[k]);
            let lead = lead_spaces(c[k].0);
            assert(lead >= pad);
            if k == w && b[w].len() > 0 && b[w][0] != ' ' {
                assert(d[0] != ' ');
                assert(lead == pad);
            }
            let c2 = if !seen || lead < common {
                lead
            } else {
                common
            };
            lemma_block_common(c, b, pad, k + 1, true, c2, w);
        } else {
            lemma_doubled_facts(b[k]);
            assert(b[k].len() == 0);
            lemma_block_common(c, b, pad, k + 1, seen, common, w);
        }
    }
}

/// Decoding a written block's content from line `k` on, after the lines
/// before it, gives the block's lines joined by newlines.
proof fn lemma_block_decode(c: Seq<(Seq<char>, nat, nat)>, b: Seq<Seq<char>>, pad: nat, common: nat, k: int)
    requires
        c.len() == b.len(),
        forall|j: int| 0 <= j < c.len() ==> (#[trigger] c[j]).0 == block_raw(b[j], pad),
        common == pad || forall|j: int| 0 <= j < b.len() ==> (#[trigger] b[j]).len() == 0,
        1 <= k <= c.len(),
    ensures
        block_text(c, k, common, join_nl(b.take(k))) == Ok::<Seq<char>, ErrV>(join_nl(b)),
    decreases c.len() - k,
{
    let acc = join_nl(b.take(k));
    if k == c.len() {
        assert(b.take(k) =~= b);
    } else {
        let acc1 = acc.push('\n');
        let t = c[k].0;
        lemma_join_nl_push(b.take(k), b[k]);
        assert(b.take(k).push(b[k]) =~= b.take(k + 1));
        if t.len() > 0 {
            assert(b[k].len() > 0);
            assert(common == pad);
            let d = double_backslashes(b[k]);
            lemma_doubled_facts(b[k]);
            assert(t == spaces(pad) + d);
            assert(t.subrange(pad as int, t.len() as int) =~= d);
            lemma_unescape_doubled(b[k]);
            assert(acc1 + b[k] =~= acc + seq!['\n'] + b[k]);
        } else {
            lemma_doubled_facts(b[k]);
            assert(b[k].len() == 0);
            assert(acc1 =~= acc + seq!['\n'] + b[k]);
        }
        lemma_block_decode(c, b, pad, common, k + 1);
    }
}

/// A written block reads back as the text it was written for, and the
/// reading ends after its last line.
pub(crate) proof fn lemma_block_reads(ls: Seq<LineV>, i0: int, text: Seq<char>, pad: nat, keycol: nat)
    requires
        block_ok(text),
        keycol <= pad,
        pad == keycol ==> !closer_line_blank(text),
        raws_match(ls, i0, block_raws(text, pad, keycol)),
    ensures
        crate::deserialize::triple_spec(ls, i0, keycol) == Ok::<(Seq<char>, int), ErrV>(
            (text, i0 + block_raws(text, pad, keycol).len()),
        ),
{
    let b = block_body(text);
    let c = block_content(ls, i0, text, pad);
    lemma_body_facts(text);
    lemma_block_scan(ls, i0, text, pad, keycol, 0);
    assert(c.take(0) =~= Seq::<(Seq<char>, nat, nat)>::empty());
    let common = common_indent(c, 0, false, 0);
    if exists|j: int| 0 <= j < b.len() && (#[trigger] b[j]).len() > 0 && b[j][0] != ' ' {
        let w = choose|j: int| 0 <= j < b.len() && (#[trigger] b[j]).len() > 0 && b[j][0] != ' ';
        lemma_block_common(c, b, pad, 0, false, 0, w);
    }
    // the first line
    let acc0 = Seq::<char>::empty();
    let t0 = c[0].0;
    lemma_doubled_facts(b[0]);
    assert(b.take(1) =~= seq![b[0]]);
    assert(join_nl(seq![b[0]]) == b[0]);
    if t0.len() > 0 {
        assert(common == pad);
        let d = double_backslashes(b[0]);
        lemma_doubled_facts(b[0]);
        assert(t0.subrange(pad as int, t0.len() as int) =~= d);
        lemma_unescape_doubled(b[0]);
        assert(acc0 + b[0] =~= b[0]);
    } else {
        assert(b[0] =~= acc0);
    }
    lemma_block_decode(c, b, pad, common, 1);
    assert(block_text(c, 0, common, acc0) == Ok::<Seq<char>, ErrV>(join_nl(b)));
    assert(block_scan(ls, i0, keycol, Seq::empty()) == Ok::<(Seq<(Seq<char>, nat, nat)>, bool, int), ErrV>(
        (c, closes_alone(text), i0 + block_raws(text, pad, keycol).len()),
    ));
    if closes_alone(text) {
        assert(join_nl(b).push('\n') =~= join_nl(b) + seq!['\n']);
    }
}

/// The raw lines of a block hold no newline.
pub(crate) proof fn lemma_block_raws_lines(text: Seq<char>, pad: nat, closer: nat)
    requires
        text.contains('\n'),
    ensures
        block_raws(text, pad, closer).len() >= 1,
        forall|j: int|
            0 <= j < block_raws(text, pad, closer).len() ==> !(#[trigger] block_raws(text, pad, closer)[j]).contains(
                '\n',
            ),
{
    let b = block_body(text);
    let r = block_raws(text, pad, closer);
    lemma_body_facts(text);
    assert forall|j: int| 0 <= j < r.len() implies !(#[trigger] r[j]).contains('\n') by {
        let q3 = seq!['"', '"', '"'];
        if j < b.len() && (closes_alone(text) || j < b.len() - 1) {
            assert(r[j] == block_raw(b[j], pad));
            lemma_doubled_facts(b[j]);
            if b[j].len() > 0 {
                let d = double_backslashes(b[j]);
                assert forall|i: int| 0 <= i < r[j].len() implies r[j][i] != '\n' by {
                    if i >= pad {
                        assert(r[j][i] == d[i - pad]);
                    }
                }
            }
        } else if closes_alone(text) {
            assert(r[j] == spaces(closer) + q3);
            assert forall|i: int| 0 <= i < r[j].len() implies r[j][i] != '\n' by {
                if i >= closer {
                    assert(r[j][i] == q3[i - closer]);
                }
            }
        } else {
            let d = double_backslashes(b.last());
            lemma_doubled_facts(b.last());
            assert(r[j] == spaces(pad) + d + q3);
            assert forall|i: int| 0 <= i < r[j].len() implies r[j][i] != '\n' by {
                if pad <= i < pad + d.len() {
                    assert(r[j][i] == d[i - pad]);
                } else if i >= pad + d.len() {
                    assert(r[j][i] == q3[i - pad - d.len()]);
                }
            }
        }
    }
}

} // verus!
