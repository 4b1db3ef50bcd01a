//! Documents read back: what the writer writes for a tree of maps and
//! lists reads back as that tree, and writing it again gives the same
//! text.
use vstd::prelude::*;
use crate::deserialize::{
    cont_spec, document_spec, doc_lines, items_spec, lead_spaces, marker, pair_spec, pairs_spec, path_from, pieces, skip_blank,
    text_lines, token_spec, LineV,
};
use crate::grammar::{index_of_either, is_alnum, lemma_index_of_either_prefix, spec_is_key, spec_is_known_metakey};
use crate::lexer::{first_tab, stripped, ErrV};
use crate::serialize::{emit_left, emit_rank, escape_chars, escape_spec, ser, spaces, to_string_spec, Emit};
use crate::value::{compared, depth_ok, erase, keys_unique, wf_node, NodeV};
use super::block::{
    after_lead, block_ok, block_raws, closer_line_blank, lemma_block_raws_lines, lemma_block_reads, lemma_block_written, lemma_lead_add,
    lemma_lead_le, raws_match, raws_text,
};
use super::{
    bare_word, num_char, number_word, flat_line, key_spelling, lemma_escape_no_newline, lemma_key_reads_back, lemma_line_facts, lemma_value_spelled, lemma_scan_plain,
    lemma_string_token_reads_back,
    lemma_scan_spelled, one_line_scalar, read_value, spelled, value_spelling,
};

verus! {

/// The part of a tree the writer is at: a map's entries from an index
/// on, one `key: value` pair, a list's items from an index on, or one
/// list item.
pub enum Part {
    Entries(nat),
    Pair(Seq<char>),
    Items(nat),
    Item,
}

/// Parts that hand on to another part of the same node rank higher.
pub open spec fn part_rank(p: Part) -> nat {
    match p {
        Part::Entries(_) | Part::Items(_) => 0,
        _ => 1,
    }
}

/// Entries or items still to write.
pub open spec fn part_left(n: NodeV, p: Part) -> nat {
    match (p, n) {
        (Part::Entries(k), NodeV::Mapping(m)) => if k < m.len() {
            (m.len() - k) as nat
        } else {
            0
        },
        (Part::Items(k), NodeV::List(l)) => if k < l.len() {
            (l.len() - k) as nat
        } else {
            0
        },
        _ => 0,
    }
}

/// The first line of a run moved to column `col` behind a `- ` marker.
pub open spec fn behind_marker(run: Seq<(nat, Seq<char>)>, col: nat) -> Seq<(nat, Seq<char>)> {
    run.update(0, (col, seq!['-', ' '] + run[0].1))
}

/// A string the writer writes as a `"""` block.
pub open spec fn multi_line(s: crate::value::ScalarV) -> bool {
    s.shape == crate::value::Shape::Str && crate::serialize::as_block(s.text)
}

/// A raw line as its indent and what follows.
pub open spec fn as_line(r: Seq<char>) -> (nat, Seq<char>) {
    (lead_spaces(r), after_lead(r))
}

/// Raw lines as indents and contents.
pub open spec fn raw_lines(r: Seq<Seq<char>>) -> Seq<(nat, Seq<char>)> {
    Seq::new(r.len(), |j: int| as_line(r[j]))
}

/// How the reader reads back a scalar the writer wrote.
pub open spec fn read_leaf(s: crate::value::ScalarV) -> NodeV {
    if multi_line(s) {
        crate::deserialize::block_scalar(s.text)
    } else {
        read_value(s)
    }
}

/// The lines the writer writes for part `p` of node `n` at column `col`,
/// each as its indent and its content.
pub open spec fn tree_lines(n: NodeV, p: Part, col: nat) -> Seq<(nat, Seq<char>)>
    decreases n, part_rank(p), part_left(n, p),
{
    match p {
        Part::Entries(k) => match n {
            NodeV::Mapping(m) => if k < m.len() {
                tree_lines(m[k as int].1, Part::Pair(m[k as int].0), col) + tree_lines(n, Part::Entries(k + 1), col)
            } else {
                Seq::empty()
            },
            _ => Seq::empty(),
        },
        Part::Items(k) => match n {
            NodeV::List(l) => if k < l.len() {
                tree_lines(l[k as int], Part::Item, col) + tree_lines(n, Part::Items(k + 1), col)
            } else {
                Seq::empty()
            },
            _ => Seq::empty(),
        },
        Part::Pair(key) => match n {
            NodeV::Scalar(s) => if multi_line(s) {
                seq![(col, key_spelling(key, col == 0) + seq![':', ' ', '"', '"', '"'])] + raw_lines(block_raws(s.text, col + 2, col))
            } else {
                seq![(col, flat_line(key, s, col == 0))]
            },
            NodeV::List(l) => if l.len() == 0 {
                seq![(col, key_spelling(key, col == 0) + seq![':', ' ', '[', ']'])]
            } else {
                seq![(col, key_spelling(key, col == 0).push(':'))] + tree_lines(n, Part::Items(0), col + 2)
            },
            NodeV::Mapping(m) => if m.len() == 0 {
                seq![(col, key_spelling(key, col == 0) + seq![':', ' ', '{', '}'])]
            } else {
                seq![(col, key_spelling(key, col == 0).push(':'))] + tree_lines(n, Part::Entries(0), col + 2)
            },
        },
        Part::Item => match n {
            NodeV::Scalar(s) => if multi_line(s) {
                seq![(col, seq!['-', ' ', '"', '"', '"'])] + raw_lines(block_raws(s.text, col + 2, col + 2))
            } else {
                seq![(col, seq!['-', ' '] + value_spelling(s))]
            },
            NodeV::List(l) => if l.len() == 0 {
                seq![(col, seq!['-', ' ', '[', ']'])]
            } else {
                seq![(col, seq!['-'])] + tree_lines(n, Part::Items(0), col + 2)
            },
            NodeV::Mapping(m) => if m.len() == 0 {
                seq![(col, seq!['-', ' ', '{', '}'])]
            } else {
                behind_marker(tree_lines(m[0].1, Part::Pair(m[0].0), col + 2), col) + tree_lines(
                    n,
                    Part::Entries(1),
                    col + 2,
                )
            },
        },
    }
}

/// The text of lines: each indented and ended by a newline.
pub open spec fn joined(ls: Seq<(nat, Seq<char>)>) -> Seq<char>
    decreases ls.len(),
{
    if ls.len() == 0 {
        Seq::empty()
    } else {
        spaces(ls[0].0) + ls[0].1 + seq!['\n'] + joined(ls.drop_first())
    }
}

/// A tree the writer writes and the reader reads back, for a node the
/// reader reads at nesting slot `depth` (root keys at slot 1, each map
/// value, list item or item's map one slot further): distinct non-empty
/// keys, no map or list with contents past the depth limit, and as
/// leaves one-line scalars, strings written as `"""` blocks, and empty
/// collections.
pub open spec fn tree_ok(n: NodeV, depth: nat) -> bool
    decreases n,
{
    match n {
        NodeV::Scalar(s) => one_line_scalar(s) || multi_line(s),
        NodeV::List(l) => {
            &&& (l.len() > 0 ==> depth <= crate::MAX_DEPTH)
            &&& forall|i: int| 0 <= i < l.len() ==> tree_ok(#[trigger] l[i], depth + 1) && item_ok(l[i])
        },
        NodeV::Mapping(m) => {
            &&& keys_unique(m)
            &&& (m.len() > 0 ==> depth <= crate::MAX_DEPTH)
            &&& forall|i: int|
                0 <= i < m.len() ==> (#[trigger] m[i]).0.len() > 0
                    && tree_ok(m[i].1, depth + 1)
        },
    }
}

/// A list item whose block, behind its marker, reads back: not a string
/// whose last line, carrying the closer, is whitespace starting with
/// something other than a space.
pub open spec fn item_ok(x: NodeV) -> bool {
    !(x matches NodeV::Scalar(s) && multi_line(s) && closer_line_blank(s.text))
}

/// A tree as the reader reads back the writer's text for it: each
/// scalar's raw token becomes the writer's spelling of it.
pub open spec fn read_tree(n: NodeV) -> NodeV
    decreases n,
{
    match n {
        NodeV::Scalar(s) => read_leaf(s),
        NodeV::List(l) => NodeV::List(
            Seq::new(l.len(), |i: int| if 0 <= i < l.len() { read_tree(l[i]) } else { NodeV::List(Seq::empty()) }),
        ),
        NodeV::Mapping(m) => NodeV::Mapping(
            Seq::new(
                m.len(),
                |i: int|
                    if 0 <= i < m.len() {
                        (m[i].0, read_tree(m[i].1))
                    } else {
                        (Seq::empty(), NodeV::List(Seq::empty()))
                    },
            ),
        ),
    }
}

/// The text of two runs of lines is the text of each, in order.
proof fn lemma_joined_add(a: Seq<(nat, Seq<char>)>, b: Seq<(nat, Seq<char>)>)
    ensures
        joined(a + b) == joined(a) + joined(b),
    decreases a.len(),
{
    if a.len() == 0 {
        assert(a + b =~= b);
        assert(joined(a) + joined(b) =~= joined(b));
    } else {
        assert((a + b).drop_first() =~= a.drop_first() + b);
        lemma_joined_add(a.drop_first(), b);
        assert(joined(a + b) =~= joined(a) + joined(b));
    }
}

/// The text of one line.
proof fn lemma_joined_one(x: (nat, Seq<char>))
    ensures
        joined(seq![x]) == spaces(x.0) + x.1 + seq!['\n'],
{
    assert(seq![x].drop_first() =~= Seq::<(nat, Seq<char>)>::empty());
    assert(joined(seq![x].drop_first()) == Seq::<char>::empty());
    assert(joined(seq![x]) =~= spaces(x.0) + x.1 + seq!['\n']);
}

/// The text of raw lines as indents and contents is the raw lines.
proof fn lemma_raw_lines_joined(r: Seq<Seq<char>>)
    ensures
        joined(raw_lines(r)) == raws_text(r),
    decreases r.len(),
{
    if r.len() == 0 {
        assert(raw_lines(r) =~= Seq::<(nat, Seq<char>)>::empty());
    } else {
        assert(raw_lines(r).drop_first() =~= raw_lines(r.drop_first()));
        lemma_raw_lines_joined(r.drop_first());
        let x = r[0];
        lemma_lead_le(x);
        assert(x.take(lead_spaces(x) as int) =~= spaces(lead_spaces(x)));
        assert(spaces(lead_spaces(x)) + after_lead(x) =~= x);
    }
}

/// Whether a part is one the writer writes as `tree_lines` says, for a
/// map or list the reader reads at slot `depth`.
pub open spec fn part_ok(n: NodeV, p: Part, depth: nat) -> bool {
    match p {
        Part::Entries(k) => n is Mapping && tree_ok(n, depth) && k <= n->Mapping_0.len(),
        Part::Items(k) => n is List && tree_ok(n, depth) && k <= n->List_0.len(),
        Part::Pair(key) => key.len() > 0 && tree_ok(n, depth + 1),
        Part::Item => tree_ok(n, depth + 1) && item_ok(n),
    }
}

/// The emitter role of a part.
pub open spec fn part_emit(p: Part) -> Emit {
    match p {
        Part::Entries(k) => Emit::Entries(k),
        Part::Items(k) => Emit::Items(k),
        Part::Pair(key) => Emit::Pair(key),
        Part::Item => Emit::Item,
    }
}

/// A value after its prefix is the prefix, then the value after nothing.
proof fn lemma_value_after_split(pre: Seq<char>, n: NodeV, col: nat, nested: crate::serialize::Emitted)
    ensures
        crate::serialize::value_after(pre, n, col, nested) == crate::serialize::then_emit(
            Some(Ok::<Seq<char>, Seq<char>>(pre)),
            crate::serialize::value_after(Seq::empty(), n, col, nested),
        ),
{
    let e = Seq::<char>::empty();
    match n {
        NodeV::Mapping(m) => {
            assert(pre + ": {}\n"@ =~= pre + (e + ": {}\n"@));
            if let Some(Ok(y)) = nested {
                assert(pre + ":\n"@ + y =~= pre + (e + ":\n"@ + y));
            }
        },
        NodeV::List(l) => {
            assert(pre + ": []\n"@ =~= pre + (e + ": []\n"@));
            if let Some(Ok(y)) = nested {
                assert(pre + ":\n"@ + y =~= pre + (e + ":\n"@ + y));
            }
        },
        NodeV::Scalar(s) => {
            if let Some(t) = crate::serialize::scalar_spec(s, col, col) {
                assert(pre + ": "@ + t + "\n"@ =~= pre + (e + ": "@ + t + "\n"@));
            }
        },
    }
}

/// A pair written behind a list marker is the pair's lines with the first
/// moved behind the marker.
proof fn lemma_inline_from_pair(v: NodeV, key: Seq<char>, col: nat, sd: nat, head: Seq<(nat, Seq<char>)>)
    requires
        head.len() >= 1,
        head[0].0 == col + 2,
        ser(v, Emit::Pair(key), col + 2, sd) == Some(Ok::<Seq<char>, Seq<char>>(joined(head))),
    ensures
        ser(v, Emit::Inline(key), col + 2, sd) == Some(Ok::<Seq<char>, Seq<char>>(joined(behind_marker(head, col)))),
{
    reveal_strlit("- ");
    let qk = crate::serialize::key_spec_at(key, false)->Ok_0;
    assert(crate::serialize::key_spec_at(key, false) is Ok);
    let nested = if v is Scalar {
        None
    } else {
        ser(v, crate::serialize::nested_mode(v), col + 4, sd + 1)
    };
    assert(((col + 2) - 2) as nat == col);
    let pre1 = spaces(col + 2) + qk;
    let pre2 = spaces(col) + "- "@ + qk;
    lemma_value_after_split(pre1, v, col + 2, nested);
    lemma_value_after_split(pre2, v, col + 2, nested);
    let r = crate::serialize::value_after(Seq::empty(), v, col + 2, nested);
    assert(r is Some && r->Some_0 is Ok);
    let y = r->Some_0->Ok_0;
    let rest = joined(head.drop_first());
    assert(joined(head) == spaces(col + 2) + head[0].1 + seq!['\n'] + rest);
    assert(pre1 + y == joined(head));
    let a = spaces(col + 2);
    assert(qk + y =~= (a + (qk + y)).skip(a.len() as int));
    assert(a + (qk + y) =~= pre1 + y);
    assert(head[0].1 + seq!['\n'] + rest =~= (a + (head[0].1 + seq!['\n'] + rest)).skip(a.len() as int));
    assert(a + (head[0].1 + seq!['\n'] + rest) =~= joined(head));
    assert(qk + y == head[0].1 + seq!['\n'] + rest);
    let b = behind_marker(head, col);
    assert(b.drop_first() =~= head.drop_first());
    assert(joined(b) == spaces(col) + (seq!['-', ' '] + head[0].1) + seq!['\n'] + rest);
    assert(seq!['-', ' '] == "- "@);
    assert(pre2 + y =~= spaces(col) + seq!['-', ' '] + (qk + y));
    assert(joined(b) =~= spaces(col) + seq!['-', ' '] + (head[0].1 + seq!['\n'] + rest));
}

/// What the writer writes for a map's entries or a list's items is the
/// text of their lines, where the writer's depth `sd` is at most the
/// reader's slot.
proof fn lemma_tree_ser(n: NodeV, p: Part, col: nat, sd: nat, depth: nat)
    requires
        p is Entries || p is Items,
        1 <= sd <= depth,
        part_ok(n, p, depth),
    ensures
        ser(n, part_emit(p), col, sd) == Some(Ok::<Seq<char>, Seq<char>>(joined(tree_lines(n, p, col)))),
    decreases n, part_rank(p), part_left(n, p),
{
    let t = tree_lines(n, p, col);
    match p {
        Part::Entries(k) => {
            let m = n->Mapping_0;
            if k < m.len() {
                let e = m[k as int];
                assert(e.0.len() > 0 && tree_ok(e.1, depth + 1));
                lemma_pair_ser(e.1, e.0, col, sd, depth);
                lemma_tree_ser(n, Part::Entries(k + 1), col, sd, depth);
                let a = tree_lines(e.1, Part::Pair(e.0), col);
                let b = tree_lines(n, Part::Entries(k + 1), col);
                lemma_joined_add(a, b);
                assert(t == a + b);
                assert(ser(n, Emit::Entries(k), col, sd) == crate::serialize::then_emit(
                    ser(e.1, Emit::Pair(e.0), col, sd),
                    ser(n, Emit::Entries(k + 1), col, sd),
                ));
                assert(ser(n, Emit::Entries(k), col, sd) == Some(Ok::<Seq<char>, Seq<char>>(joined(t))));
            } else {
                assert(t =~= Seq::<(nat, Seq<char>)>::empty());
                assert(joined(t) == Seq::<char>::empty());
                assert(ser(n, Emit::Entries(k), col, sd) == Some(Ok::<Seq<char>, Seq<char>>(Seq::empty())));
            }
        },
        Part::Pair(_) | Part::Item => {
            assert(false);
        },
        Part::Items(k) => {
            let l = n->List_0;
            if k < l.len() {
                assert(tree_ok(l[k as int], depth + 1) && item_ok(l[k as int]));
                lemma_item_ser(l[k as int], col, sd, depth);
                lemma_tree_ser(n, Part::Items(k + 1), col, sd, depth);
                let a = tree_lines(l[k as int], Part::Item, col);
                let b = tree_lines(n, Part::Items(k + 1), col);
                lemma_joined_add(a, b);
                assert(t == a + b);
                assert(ser(n, Emit::Items(k), col, sd) == crate::serialize::then_emit(
                    ser(l[k as int], Emit::Item, col, sd),
                    ser(n, Emit::Items(k + 1), col, sd),
                ));
                assert(ser(n, Emit::Items(k), col, sd) == Some(Ok::<Seq<char>, Seq<char>>(joined(t))));
            } else {
                assert(t =~= Seq::<(nat, Seq<char>)>::empty());
                assert(joined(t) == Seq::<char>::empty());
                assert(ser(n, Emit::Items(k), col, sd) == Some(Ok::<Seq<char>, Seq<char>>(Seq::empty())));
            }
        },
    }
}

/// What the writer writes for a pair is the text of its lines.
#[verifier::spinoff_prover]
#[verifier::rlimit(80)]
proof fn lemma_pair_ser(n: NodeV, key: Seq<char>, col: nat, sd: nat, depth: nat)
    requires
        1 <= sd <= depth,
        part_ok(n, Part::Pair(key), depth),
    ensures
        ser(n, Emit::Pair(key), col, sd) == Some(Ok::<Seq<char>, Seq<char>>(joined(tree_lines(n, Part::Pair(key), col)))),
    decreases n, 1int, 0int,
{
    reveal_strlit(": ");
    reveal_strlit("\n");
    reveal_strlit(": {}\n");
    reveal_strlit(": []\n");
    reveal_strlit(":\n");
    reveal_strlit("- ");
    reveal_strlit("- {}\n");
    reveal_strlit("- []\n");
    reveal_strlit("-\n");
    reveal_strlit("null");
    let t = tree_lines(n, Part::Pair(key), col);
    let ks = key_spelling(key, col == 0);
    assert(crate::serialize::key_spec_at(key, col == 0) == Ok::<Seq<char>, Seq<char>>(ks));
    match n {
        NodeV::Scalar(s) => {
            if multi_line(s) {
                let r = block_raws(s.text, col + 2, col);
                let tri = crate::serialize::triple_spec(s.text, col, col);
                assert(crate::serialize::scalar_spec(s, col, col) == Some(tri));
                lemma_block_written(s.text, col, col);
                lemma_raw_lines_joined(r);
                let h = (col, ks + seq![':', ' ', '"', '"', '"']);
                lemma_joined_one(h);
                lemma_joined_add(seq![h], raw_lines(r));
                assert(spaces(col) + ks + ": "@ + tri + "\n"@ =~= spaces(col) + ks + ": "@ + (tri + seq!['\n']));
                assert(spaces(col) + ks + ": "@ + tri + "\n"@ =~= spaces(col) + h.1 + seq!['\n'] + raws_text(r));
            } else {
                if s.shape == crate::value::Shape::Int {
                    super::ints::lemma_int_spec_facts(s.text);
                }
                assert(crate::serialize::scalar_spec(s, col, col) == Some(value_spelling(s)));
                lemma_joined_one((col, flat_line(key, s, col == 0)));
                assert(spaces(col) + ks + ": "@ + value_spelling(s) + "\n"@ =~= spaces(col) + flat_line(key, s, col == 0)
                    + seq!['\n']);
            }
        },
        NodeV::List(l) => {
            if l.len() == 0 {
                lemma_joined_one((col, ks + seq![':', ' ', '[', ']']));
                assert(spaces(col) + ks + ": []\n"@ =~= spaces(col) + (ks + seq![':', ' ', '[', ']'])
                    + seq!['\n']);
            } else {
                lemma_tree_ser(n, Part::Items(0), col + 2, sd + 1, depth + 1);
                assert(ser(n, Emit::ListBody, col + 2, sd + 1) == ser(n, Emit::Items(0), col + 2, sd + 1));
                assert(t == seq![(col, ks.push(':'))] + tree_lines(n, Part::Items(0), col + 2));
                lemma_joined_one((col, ks.push(':')));
                lemma_joined_add(seq![(col, ks.push(':'))], tree_lines(n, Part::Items(0), col + 2));
                assert(spaces(col) + ks + ":\n"@ =~= spaces(col) + ks.push(':') + seq!['\n']);
            }
        },
        NodeV::Mapping(m) => {
            if m.len() == 0 {
                lemma_joined_one((col, ks + seq![':', ' ', '{', '}']));
                assert(spaces(col) + ks + ": {}\n"@ =~= spaces(col) + (ks + seq![':', ' ', '{', '}'])
                    + seq!['\n']);
            } else {
                lemma_tree_ser(n, Part::Entries(0), col + 2, sd + 1, depth + 1);
                assert(ser(n, Emit::MapBody, col + 2, sd + 1) == ser(n, Emit::Entries(0), col + 2, sd + 1));
                assert(t == seq![(col, ks.push(':'))] + tree_lines(n, Part::Entries(0), col + 2));
                lemma_joined_one((col, ks.push(':')));
                lemma_joined_add(seq![(col, ks.push(':'))], tree_lines(n, Part::Entries(0), col + 2));
                assert(spaces(col) + ks + ":\n"@ =~= spaces(col) + ks.push(':') + seq!['\n']);
            }
        },
    }
}

/// What the writer writes for a list item is the text of its lines.
#[verifier::spinoff_prover]
#[verifier::rlimit(80)]
proof fn lemma_item_ser(n: NodeV, col: nat, sd: nat, depth: nat)
    requires
        1 <= sd <= depth,
        part_ok(n, Part::Item, depth),
    ensures
        ser(n, Emit::Item, col, sd) == Some(Ok::<Seq<char>, Seq<char>>(joined(tree_lines(n, Part::Item, col)))),
    decreases n, 1int, 0int,
{
    reveal_strlit(": ");
    reveal_strlit("\n");
    reveal_strlit(": {}\n");
    reveal_strlit(": []\n");
    reveal_strlit(":\n");
    reveal_strlit("- ");
    reveal_strlit("- {}\n");
    reveal_strlit("- []\n");
    reveal_strlit("-\n");
    reveal_strlit("null");
    let t = tree_lines(n, Part::Item, col);
    match n {
        NodeV::Scalar(s) => {
            if multi_line(s) {
                let r = block_raws(s.text, col + 2, col + 2);
                let tri = crate::serialize::triple_spec(s.text, col, col + 2);
                assert(crate::serialize::scalar_spec(s, col, col + 2) == Some(tri));
                lemma_block_written(s.text, col, col + 2);
                lemma_raw_lines_joined(r);
                let h = (col, seq!['-', ' ', '"', '"', '"']);
                lemma_joined_one(h);
                lemma_joined_add(seq![h], raw_lines(r));
                assert(spaces(col) + "- "@ + tri + "\n"@ =~= spaces(col) + "- "@ + (tri + seq!['\n']));
                assert(spaces(col) + "- "@ + tri + "\n"@ =~= spaces(col) + h.1 + seq!['\n'] + raws_text(r));
            } else {
                if s.shape == crate::value::Shape::Int {
                    super::ints::lemma_int_spec_facts(s.text);
                }
                assert(crate::serialize::scalar_spec(s, col, col + 2) == Some(value_spelling(s)));
                lemma_joined_one((col, seq!['-', ' '] + value_spelling(s)));
                assert(spaces(col) + "- "@ + value_spelling(s) + "\n"@ =~= spaces(col) + (seq!['-', ' ']
                    + value_spelling(s)) + seq!['\n']);
            }
        },
        NodeV::List(l) => {
            if l.len() == 0 {
                lemma_joined_one((col, seq!['-', ' ', '[', ']']));
                assert(spaces(col) + "- []\n"@ =~= spaces(col) + seq!['-', ' ', '[', ']'] + seq!['\n']);
            } else {
                lemma_tree_ser(n, Part::Items(0), col + 2, sd + 1, depth + 1);
                assert(ser(n, Emit::ListBody, col + 2, sd + 1) == ser(n, Emit::Items(0), col + 2, sd + 1));
                assert(t == seq![(col, seq!['-'])] + tree_lines(n, Part::Items(0), col + 2));
                lemma_joined_one((col, seq!['-']));
                lemma_joined_add(seq![(col, seq!['-'])], tree_lines(n, Part::Items(0), col + 2));
                assert(spaces(col) + "-\n"@ =~= spaces(col) + seq!['-'] + seq!['\n']);
            }
        },
        NodeV::Mapping(m) => {
            if m.len() == 0 {
                lemma_joined_one((col, seq!['-', ' ', '{', '}']));
                assert(spaces(col) + "- {}\n"@ =~= spaces(col) + seq!['-', ' ', '{', '}'] + seq!['\n']);
            } else {
                let e = m[0];
                assert(e.0.len() > 0 && tree_ok(e.1, depth + 2));
                assert(sd + 1 <= 100);
                lemma_pair_ser(e.1, e.0, col + 2, sd + 1, depth + 1);
                let head = tree_lines(e.1, Part::Pair(e.0), col + 2);
                lemma_pair_lines_head(e.1, e.0, col + 2);
                lemma_inline_from_pair(e.1, e.0, col, sd + 1, head);
                lemma_tree_ser(n, Part::Entries(1), col + 2, sd + 1, depth + 1);
                lemma_joined_add(behind_marker(head, col), tree_lines(n, Part::Entries(1), col + 2));
            }
        },
    }
}

/// The lines of a pair start with its key's line at the pair's column.
proof fn lemma_pair_lines_head(n: NodeV, key: Seq<char>, col: nat)
    ensures
        tree_lines(n, Part::Pair(key), col).len() >= 1,
        tree_lines(n, Part::Pair(key), col)[0].0 == col,
{
}

/// A line content the reader scans as it stands: not empty, starting
/// with no space, on one line, with no comment or tab outside strings and
/// no trailing whitespace.
pub open spec fn line_ok(c: Seq<char>) -> bool {
    &&& c.len() > 0
    &&& c[0] != ' '
    &&& !c.contains('\n')
    &&& crate::lexer::cut_comment(c, 0, false, false) == c.len()
    &&& first_tab(c, 0, false, false) is None
    &&& !crate::lexer::is_ws(c.last())
}

/// Such a line content that does not start a list item.
pub open spec fn good_content(c: Seq<char>) -> bool {
    line_ok(c) && c[0] != '-'
}

/// A line content as the reader splits a line: on one line, and starting
/// with no space unless empty.
pub open spec fn text_line(c: Seq<char>) -> bool {
    !c.contains('\n') && (c.len() == 0 || c[0] != ' ')
}

/// A line content the reader scans as it stands is its own stripped form.
proof fn lemma_line_ok_stripped(c: Seq<char>)
    requires
        line_ok(c),
    ensures
        stripped(c) == c,
{
    assert(crate::lexer::trim_end_len(c, c.len() as int) == c.len());
    assert(c.take(c.len() as int) =~= c);
}

/// Scanning behind a prefix is scanning without it, shifted.
proof fn lemma_scan_shift(w: Seq<char>, c: Seq<char>, i: int, st: bool, esc: bool)
    requires
        0 <= i <= c.len(),
    ensures
        crate::lexer::cut_comment(w + c, w.len() + i, st, esc) == w.len() + crate::lexer::cut_comment(c, i, st, esc),
        first_tab(w + c, w.len() + i, st, esc) == (match first_tab(c, i, st, esc) {
            Some(x) => Some(x + w.len()),
            None => None,
        }),
    decreases c.len() - i,
{
    let t = w + c;
    if i < c.len() {
        assert(t[w.len() + i] == c[i]);
        lemma_scan_shift(w, c, i + 1, true, !esc);
        lemma_scan_shift(w, c, i + 1, false, esc);
        lemma_scan_shift(w, c, i + 1, true, esc);
        lemma_scan_shift(w, c, i + 1, true, false);
        lemma_scan_shift(w, c, i + 1, false, false);
    }
}

/// What is known of a token the writer spells.
proof fn lemma_token_facts(v: Seq<char>)
    requires
        spelled(v),
    ensures
        v.len() > 0,
        !v.contains('\n'),
        !crate::lexer::is_ws(v.last()),
        v[0] != ' ',
        !(v.len() == 1 && v[0] == '-'),
        !(v.len() >= 2 && v[0] == '-' && v[1] == ' '),
{
    reveal_strlit("\"");
    if bare_word(v) {
        assert forall|j: int| 0 <= j < v.len() implies v[j] != '\n' by {
            assert(is_alnum(v[j]) || v[j] == '_' || (j > 0 && v[j] == '-'));
        }
        assert(is_alnum(v.last()) || v.last() == '_' || v.last() == '-');
    } else if number_word(v) {
        assert forall|j: int| 0 <= j < v.len() implies v[j] != '\n' by {
            assert(num_char(v[j]));
        }
        if v.len() >= 2 {
            assert(num_char(v[1]));
        }
    } else {
        let t = choose|t: Seq<char>| v == escape_spec(t);
        lemma_escape_no_newline(t);
        assert forall|j: int| 0 <= j < v.len() implies v[j] != '\n' by {
            if 0 < j < v.len() - 1 {
                assert(v[j] == escape_chars(t)[j - 1]);
            }
        }
    }
}

/// A text without `:` names no pair.
proof fn lemma_no_colon_no_pair(s: Seq<char>, c: int, segs: Seq<Seq<char>>, line: nat, base: nat, root: bool)
    requires
        forall|j: int| 0 <= j < s.len() ==> s[j] != ':',
    ensures
        !(path_from(s, c, segs, line, base, root) matches Ok(Some(_))),
    decreases s.len() - c,
{
    if 0 <= c < s.len() {
        if let Ok((seg, c2)) = crate::deserialize::seg_step(s, c, segs.len() == 0, root, line, (base + c) as nat) {
            if c < c2 < s.len() && s[c2] == '.' {
                lemma_no_colon_no_pair(s, c2 + 1, segs.push(seg), line, base, root);
            }
        }
    }
}

/// A `- ` marker before a line the reader scans as it stands.
proof fn lemma_marker_line(c: Seq<char>)
    requires
        line_ok(c),
    ensures
        line_ok(seq!['-', ' '] + c),
        marker(seq!['-', ' '] + c),
{
    let w = seq!['-', ' '];
    let l = w + c;
    lemma_scan_plain(l, 0, 2);
    lemma_scan_shift(w, c, 0, false, false);
    assert(l.last() == c.last());
    assert forall|j: int| 0 <= j < l.len() implies l[j] != '\n' by {
        if j >= 2 {
            assert(l[j] == c[j - 2]);
        }
    }
}

/// A `- ` marker before a spelled token, `{}` or `[]`.
proof fn lemma_item_token_line(v: Seq<char>)
    requires
        spelled(v) || v == seq!['{', '}'] || v == seq!['[', ']'],
    ensures
        line_ok(seq!['-', ' '] + v),
        marker(seq!['-', ' '] + v),
{
    if spelled(v) {
        lemma_token_facts(v);
        let w = seq!['-', ' '];
        let l = w + v;
        assert(l =~= w + v + Seq::<char>::empty());
        lemma_scan_plain(l, 0, 2);
        lemma_scan_spelled(w, v, Seq::<char>::empty());
        assert(l.last() == v.last());
        assert forall|j: int| 0 <= j < l.len() implies l[j] != '\n' by {
            if j >= 2 {
                assert(l[j] == v[j - 2]);
            }
        }
    } else {
        let l = seq!['-', ' '] + v;
        lemma_scan_plain(l, 0, l.len() as int);
    }
}

/// What is known of a key's spelling.
proof fn lemma_key_facts(k: Seq<char>, root: bool)
    requires
        k.len() > 0,
    ensures
        spelled(key_spelling(k, root)),
        key_spelling(k, root).len() > 0,
        key_spelling(k, root)[0] != ' ' && key_spelling(k, root)[0] != '-',
        !key_spelling(k, root).contains('\n'),
{
    reveal_strlit("__schema__");
    reveal_strlit("\"");
    let ks = key_spelling(k, root);
    if spec_is_key(k) || (root && spec_is_known_metakey(k)) {
        if spec_is_key(k) {
            assert forall|j: int| 0 <= j < k.len() implies is_alnum(#[trigger] k[j]) || k[j] == '_' || (j > 0
                && k[j] == '-') by {
                assert(crate::grammar::is_key_char(k[j]));
            }
        }
        assert(bare_word(ks));
        assert forall|j: int| 0 <= j < ks.len() implies ks[j] != '\n' by {
            assert(is_alnum(ks[j]) || ks[j] == '_' || (j > 0 && ks[j] == '-'));
        }
    } else {
        assert(ks == escape_spec(k));
        lemma_escape_no_newline(k);
        assert forall|j: int| 0 <= j < ks.len() implies ks[j] != '\n' by {
            if 0 < j < ks.len() - 1 {
                assert(ks[j] == escape_chars(k)[j - 1]);
            }
        }
    }
}

/// A key's spelling followed by plain characters (no `#`, `"`, tab or
/// newline) ending in a non-space is a line the reader takes as it stands.
proof fn lemma_plain_tail(k: Seq<char>, w: Seq<char>, root: bool)
    requires
        k.len() > 0,
        w.len() > 0,
        forall|j: int| 0 <= j < w.len() ==> w[j] != '#' && w[j] != '"' && w[j] != '\t' && w[j] != '\n',
        !crate::lexer::is_ws(w.last()),
    ensures
        good_content(key_spelling(k, root) + w),
{
    lemma_key_facts(k, root);
    let ks = key_spelling(k, root);
    let l = ks + w;
    assert(l =~= Seq::<char>::empty() + ks + w);
    lemma_scan_spelled(Seq::<char>::empty(), ks, w);
    assert forall|j: int| ks.len() <= j < l.len() implies l[j] != '#' && l[j] != '"' && l[j] != '\t' by {
        assert(l[j] == w[j - ks.len()]);
    }
    lemma_scan_plain(l, ks.len() as int, l.len() as int);
    assert(l.last() == w.last());
    assert(crate::lexer::trim_end_len(l, l.len() as int) == l.len());
    assert(l.take(l.len() as int) =~= l);
    assert forall|j: int| 0 <= j < l.len() implies l[j] != '\n' by {
        if j < ks.len() {
            assert(l[j] == ks[j]);
        } else {
            assert(l[j] == w[j - ks.len()]);
        }
    }
    assert(l[0] == ks[0]);
}

/// The lines of a run's text are the run's lines, then the empty piece
/// after the last newline.
proof fn lemma_joined_pieces(ls: Seq<(nat, Seq<char>)>)
    requires
        forall|j: int| 0 <= j < ls.len() ==> !(#[trigger] ls[j]).1.contains('\n'),
    ensures
        pieces(joined(ls)) == Seq::new(ls.len(), |j: int| spaces(ls[j].0) + ls[j].1).push(Seq::<char>::empty()),
    decreases ls.len(),
{
    let t = joined(ls);
    if ls.len() == 0 {
        assert(t =~= Seq::<char>::empty());
        assert(index_of_either(t, '\n', '\n') == 0);
        assert(Seq::new(0, |j: int| spaces(ls[j].0) + ls[j].1).push(Seq::<char>::empty()) =~= seq![
            Seq::<char>::empty(),
        ]);
    } else {
        let l = spaces(ls[0].0) + ls[0].1;
        let rest = joined(ls.drop_first());
        assert(t =~= l + seq!['\n'] + rest);
        assert(!ls[0].1.contains('\n'));
        assert forall|j: int| 0 <= j < l.len() implies t[j] != '\n' && t[j] != '\n' by {
            assert(t[j] == l[j]);
            if j >= ls[0].0 {
                assert(l[j] == ls[0].1[j - ls[0].0]);
            }
        }
        lemma_index_of_either_prefix(t, '\n', '\n', l.len() as int);
        assert(t.skip(l.len() as int)[0] == '\n');
        assert(index_of_either(t.skip(l.len() as int), '\n', '\n') == 0);
        assert(t.take(l.len() as int) =~= l);
        assert(t.skip(l.len() + 1int) =~= rest);
        assert forall|j: int| 0 <= j < ls.drop_first().len() implies !(#[trigger] ls.drop_first()[j]).1.contains(
            '\n',
        ) by {
            assert(ls.drop_first()[j] == ls[j + 1]);
        }
        lemma_joined_pieces(ls.drop_first());
        let d = ls.drop_first();
        assert(Seq::new(ls.len(), |j: int| spaces(ls[j].0) + ls[j].1).push(Seq::<char>::empty()) =~= seq![l]
            + Seq::new(d.len(), |j: int| spaces(d[j].0) + d[j].1).push(Seq::<char>::empty()));
    }
}

/// The reader's lines of a run's text are the run's lines.
proof fn lemma_joined_lines(ls: Seq<(nat, Seq<char>)>)
    requires
        forall|j: int| 0 <= j < ls.len() ==> text_line(#[trigger] ls[j].1),
    ensures
        text_lines(joined(ls)).len() == ls.len(),
        forall|j: int|
            0 <= j < ls.len() ==> (#[trigger] text_lines(joined(ls))[j]).indent == ls[j].0 && text_lines(
                joined(ls),
            )[j].rest == ls[j].1 && text_lines(joined(ls))[j].raw == spaces(ls[j].0) + ls[j].1,
{
    assert forall|j: int| 0 <= j < ls.len() implies !(#[trigger] ls[j]).1.contains('\n') by {
        assert(text_line(ls[j].1));
    }
    lemma_joined_pieces(ls);
    let t = joined(ls);
    let lines = Seq::new(ls.len(), |j: int| spaces(ls[j].0) + ls[j].1);
    assert(doc_lines(t) =~= lines);
    assert forall|j: int| 0 <= j < ls.len() implies (#[trigger] text_lines(t)[j]).indent == ls[j].0
        && text_lines(t)[j].rest == ls[j].1 && text_lines(t)[j].raw == spaces(ls[j].0) + ls[j].1 by {
        assert(text_line(ls[j].1));
        lemma_lead_add(ls[j].0, ls[j].1);
        assert(lead_spaces(ls[j].1) == 0);
        assert(ls[j].1.skip(0) =~= ls[j].1);
        assert(lines[j] == spaces(ls[j].0) + ls[j].1);
    }
}

/// Scanning `"""` outside a string ends outside the text, with no
/// comment or tab.
proof fn lemma_scan_triple(t: Seq<char>, i: int)
    requires
        0 <= i,
        i + 3 == t.len(),
        t[i] == '"' && t[i + 1] == '"' && t[i + 2] == '"',
    ensures
        crate::lexer::cut_comment(t, i, false, false) == t.len(),
        first_tab(t, i, false, false) is None,
{
    assert(crate::lexer::cut_comment(t, i + 3, true, false) == t.len());
    assert(crate::lexer::cut_comment(t, i + 2, false, false) == t.len());
    assert(crate::lexer::cut_comment(t, i + 1, true, false) == t.len());
    assert(first_tab(t, i + 3, true, false) is None);
    assert(first_tab(t, i + 2, false, false) is None);
    assert(first_tab(t, i + 1, true, false) is None);
}

/// The lines that open a `"""` block behind a key or a list marker are
/// scanned as they stand.
proof fn lemma_triple_head(k: Seq<char>, root: bool)
    requires
        k.len() > 0,
    ensures
        good_content(key_spelling(k, root) + seq![':', ' ', '"', '"', '"']),
        line_ok(seq!['-', ' ', '"', '"', '"']),
        marker(seq!['-', ' ', '"', '"', '"']),
{
    lemma_key_facts(k, root);
    let ks = key_spelling(k, root);
    let w = seq![':', ' ', '"', '"', '"'];
    let l = ks + w;
    assert(l =~= Seq::<char>::empty() + ks + w);
    lemma_scan_spelled(Seq::<char>::empty(), ks, w);
    lemma_scan_plain(l, ks.len() as int, ks.len() + 2int);
    lemma_scan_triple(l, ks.len() + 2int);
    assert forall|j: int| 0 <= j < l.len() implies l[j] != '\n' by {
        if j < ks.len() {
            assert(l[j] == ks[j]);
        }
    }
    assert(l[0] == ks[0]);
    let m = seq!['-', ' ', '"', '"', '"'];
    lemma_scan_plain(m, 0, 2);
    lemma_scan_triple(m, 2);
}

/// The lines of a block, as indents and contents, are lines as the
/// reader splits them.
proof fn lemma_raw_lines_text(r: Seq<Seq<char>>, text: Seq<char>, pad: nat, closer: nat)
    requires
        text.contains('\n'),
        r == block_raws(text, pad, closer),
    ensures
        r.len() >= 1,
        forall|j: int| 0 <= j < raw_lines(r).len() ==> text_line(#[trigger] raw_lines(r)[j].1),
{
    lemma_block_raws_lines(text, pad, closer);
    assert forall|j: int| 0 <= j < raw_lines(r).len() implies text_line(#[trigger] raw_lines(r)[j].1) by {
        let x = r[j];
        lemma_lead_le(x);
        assert(!x.contains('\n'));
        let a = after_lead(x);
        assert forall|i: int| 0 <= i < a.len() implies a[i] != '\n' by {
            assert(a[i] == x[i + lead_spaces(x)]);
        }
        if a.len() > 0 {
            assert(a[0] == x[lead_spaces(x) as int]);
        }
    }
}

/// The first line of a run sits at `col` and is a list item's line when
/// `item` holds, a pair's line otherwise.
pub open spec fn run_head(t: Seq<(nat, Seq<char>)>, col: nat, item: bool) -> bool {
    &&& t.len() >= 1
    &&& t[0].0 == col
    &&& line_ok(t[0].1)
    &&& if item {
        marker(t[0].1)
    } else {
        good_content(t[0].1)
    }
}

/// Every line written for a part is one the reader scans as it stands,
/// and a part's first line is its key's or its marker's.
proof fn lemma_tree_lines_good(n: NodeV, p: Part, col: nat, depth: nat)
    requires
        depth >= 1,
        part_ok(n, p, depth),
    ensures
        forall|j: int| 0 <= j < tree_lines(n, p, col).len() ==> text_line(#[trigger] tree_lines(n, p, col)[j].1),
        p is Pair ==> run_head(tree_lines(n, p, col), col, false),
        p is Item ==> run_head(tree_lines(n, p, col), col, true),
        p matches Part::Entries(k) && k < n->Mapping_0.len() ==> run_head(tree_lines(n, p, col), col, false),
        p matches Part::Items(k) && k < n->List_0.len() ==> run_head(tree_lines(n, p, col), col, true),
    decreases n, part_rank(p), part_left(n, p),
{
    let t = tree_lines(n, p, col);
    match p {
        Part::Entries(k) => {
            let m = n->Mapping_0;
            if k < m.len() {
                let e = m[k as int];
                assert(e.0.len() > 0 && tree_ok(e.1, depth + 1));
                lemma_tree_lines_good(e.1, Part::Pair(e.0), col, depth);
                lemma_tree_lines_good(n, Part::Entries(k + 1), col, depth);
                let a = tree_lines(e.1, Part::Pair(e.0), col);
                let b = tree_lines(n, Part::Entries(k + 1), col);
                assert(t == a + b);
                assert(t[0] == a[0]);
                assert forall|j: int| 0 <= j < t.len() implies text_line(#[trigger] t[j].1) by {
                    if j < a.len() {
                        assert(t[j] == a[j]);
                    } else {
                        assert(t[j] == b[j - a.len()]);
                    }
                }
            }
        },
        Part::Items(k) => {
            let l = n->List_0;
            if k < l.len() {
                assert(tree_ok(l[k as int], depth + 1) && item_ok(l[k as int]));
                lemma_tree_lines_good(l[k as int], Part::Item, col, depth);
                lemma_tree_lines_good(n, Part::Items(k + 1), col, depth);
                let a = tree_lines(l[k as int], Part::Item, col);
                let b = tree_lines(n, Part::Items(k + 1), col);
                assert(t == a + b);
                assert(t[0] == a[0]);
                assert forall|j: int| 0 <= j < t.len() implies text_line(#[trigger] t[j].1) by {
                    if j < a.len() {
                        assert(t[j] == a[j]);
                    } else {
                        assert(t[j] == b[j - a.len()]);
                    }
                }
            }
        },
        Part::Pair(key) => {
            let ks = key_spelling(key, col == 0);
            match n {
                NodeV::Scalar(s) => {
                    if multi_line(s) {
                        lemma_triple_head(key, col == 0);
                        lemma_raw_lines_text(block_raws(s.text, col + 2, col), s.text, col + 2, col);
                        let b = raw_lines(block_raws(s.text, col + 2, col));
                        assert(t == seq![(col, ks + seq![':', ' ', '"', '"', '"'])] + b);
                        assert forall|j: int| 0 <= j < t.len() implies text_line(#[trigger] t[j].1) by {
                            if j > 0 {
                                assert(t[j] == b[j - 1]);
                            }
                        }
                    } else {
                        lemma_line_facts(key, s, col == 0);
                    }
                },
                NodeV::List(l) => {
                    if l.len() == 0 {
                        lemma_plain_tail(key, seq![':', ' ', '[', ']'], col == 0);
                    } else {
                        lemma_plain_tail(key, seq![':'], col == 0);
                        assert(ks.push(':') =~= ks + seq![':']);
                        lemma_tree_lines_good(n, Part::Items(0), col + 2, depth + 1);
                        let b = tree_lines(n, Part::Items(0), col + 2);
                        assert(t == seq![(col, ks.push(':'))] + b);
                        assert forall|j: int| 0 <= j < t.len() implies text_line(#[trigger] t[j].1) by {
                            if j > 0 {
                                assert(t[j] == b[j - 1]);
                            }
                        }
                    }
                },
                NodeV::Mapping(m) => {
                    if m.len() == 0 {
                        lemma_plain_tail(key, seq![':', ' ', '{', '}'], col == 0);
                    } else {
                        lemma_plain_tail(key, seq![':'], col == 0);
                        assert(ks.push(':') =~= ks + seq![':']);
                        lemma_tree_lines_good(n, Part::Entries(0), col + 2, depth + 1);
                        let b = tree_lines(n, Part::Entries(0), col + 2);
                        assert(t == seq![(col, ks.push(':'))] + b);
                        assert forall|j: int| 0 <= j < t.len() implies text_line(#[trigger] t[j].1) by {
                            if j > 0 {
                                assert(t[j] == b[j - 1]);
                            }
                        }
                    }
                },
            }
        },
        Part::Item => {
            match n {
                NodeV::Scalar(s) => {
                    if multi_line(s) {
                        lemma_triple_head(seq!['k'], false);
                        lemma_raw_lines_text(block_raws(s.text, col + 2, col + 2), s.text, col + 2, col + 2);
                        let b = raw_lines(block_raws(s.text, col + 2, col + 2));
                        assert(t == seq![(col, seq!['-', ' ', '"', '"', '"'])] + b);
                        assert forall|j: int| 0 <= j < t.len() implies text_line(#[trigger] t[j].1) by {
                            if j > 0 {
                                assert(t[j] == b[j - 1]);
                            }
                        }
                    } else {
                        lemma_value_spelled(s);
                        lemma_item_token_line(value_spelling(s));
                    }
                },
                NodeV::List(l) => {
                    if l.len() == 0 {
                        lemma_item_token_line(seq!['[', ']']);
                        assert(seq!['-', ' '] + seq!['[', ']'] =~= seq!['-', ' ', '[', ']']);
                    } else {
                        let d = seq!['-'];
                        lemma_scan_plain(d, 0, 1);
                        lemma_tree_lines_good(n, Part::Items(0), col + 2, depth + 1);
                        let b = tree_lines(n, Part::Items(0), col + 2);
                        assert(t == seq![(col, d)] + b);
                        assert forall|j: int| 0 <= j < t.len() implies text_line(#[trigger] t[j].1) by {
                            if j > 0 {
                                assert(t[j] == b[j - 1]);
                            }
                        }
                    }
                },
                NodeV::Mapping(m) => {
                    if m.len() == 0 {
                        lemma_item_token_line(seq!['{', '}']);
                        assert(seq!['-', ' '] + seq!['{', '}'] =~= seq!['-', ' ', '{', '}']);
                    } else {
                        let e = m[0];
                        assert(e.0.len() > 0 && tree_ok(e.1, depth + 2));
                        lemma_tree_lines_good(e.1, Part::Pair(e.0), col + 2, depth + 1);
                        lemma_tree_lines_good(n, Part::Entries(1), col + 2, depth + 1);
                        let head = tree_lines(e.1, Part::Pair(e.0), col + 2);
                        let a = behind_marker(head, col);
                        let b = tree_lines(n, Part::Entries(1), col + 2);
                        lemma_marker_line(head[0].1);
                        assert(t == a + b);
                        assert(t[0] == a[0]);
                        assert forall|j: int| 0 <= j < t.len() implies text_line(#[trigger] t[j].1) by {
                            if j < a.len() {
                                assert(t[j] == a[j]);
                                if j > 0 {
                                    assert(a[j] == head[j]);
                                }
                            } else {
                                assert(t[j] == b[j - a.len()]);
                            }
                        }
                    }
                },
            }
        },
    }
}

/// No `"""` opens a value.
pub open spec fn no_triple(v: Seq<char>) -> bool {
    !(v.len() >= 3 && v[0] == '"' && v[1] == '"' && v[2] == '"')
}

/// A `key: value` line whose value is one token reads back as the key and
/// what the token denotes.
#[verifier::spinoff_prover]
#[verifier::rlimit(60)]
proof fn lemma_token_line_reads(ls: Seq<LineV>, i: int, col: nat, depth: nat, k: Seq<char>, v: Seq<char>, node: NodeV)
    requires
        0 <= i < ls.len(),
        ls[i].indent == col,
        ls[i].rest == key_spelling(k, col == 0) + seq![':', ' '] + v,
        good_content(ls[i].rest),
        k.len() > 0,
        (col == 0) == (depth == 1),
        1 <= depth <= crate::MAX_DEPTH,
        v.len() > 0,
        v[0] != ' ',
        no_triple(v),
        token_spec(v, ls[i].no, col + key_spelling(k, col == 0).len() + 3) == Ok::<NodeV, ErrV>(node),
    ensures
        pair_spec(ls, i, col, depth == 1, depth) == Ok::<(Seq<Seq<char>>, NodeV, Seq<LineV>, int), ErrV>(
            (seq![k], node, ls, i + 1),
        ),
{
    reveal_strlit("\"\"\"");
    let l = ls[i];
    let ks = key_spelling(k, col == 0);
    let s = l.rest;
    lemma_line_ok_stripped(s);
    assert(crate::serialize::key_spec_at(k, col == 0) == Ok::<Seq<char>, Seq<char>>(ks));
    lemma_key_reads_back(k, seq![' '] + v, l.no, col + 1, depth == 1);
    assert(s =~= ks.push(':') + (seq![' '] + v));
    let after = ks.len() + 1int;
    assert(s[after] == ' ');
    assert(s.subrange(after + 1, s.len() as int) =~= v);
    assert(s[after + 1] == v[0]);
    assert(v != "\"\"\""@);
}

/// Where a run of lines ends: at the end of the text, or before a line
/// with content indented less than `col`.
pub open spec fn ends_before(ls: Seq<LineV>, q: int, col: nat) -> bool {
    q == ls.len() || (0 <= q < ls.len() && ls[q].indent < col && stripped(ls[q].rest).len() > 0)
}

/// The reader's lines from `p` on start with the run.
pub open spec fn lines_match(ls: Seq<LineV>, p: int, run: Seq<(nat, Seq<char>)>) -> bool {
    &&& 0 <= p
    &&& p + run.len() <= ls.len()
    &&& forall|j: int| 0 <= j < run.len() ==> ls[p + j].indent == (#[trigger] run[j]).0 && ls[p + j].rest == run[j].1
    &&& forall|j: int| 0 < j < run.len() ==> ls[p + j].raw == spaces((#[trigger] run[j]).0) + run[j].1
}

/// A match of two runs in a row is a match of each.
proof fn lemma_split_match(ls: Seq<LineV>, p: int, a: Seq<(nat, Seq<char>)>, b: Seq<(nat, Seq<char>)>)
    requires
        lines_match(ls, p, a + b),
    ensures
        lines_match(ls, p, a),
        lines_match(ls, p + a.len(), b),
{
    let t = a + b;
    assert forall|j: int| 0 <= j < a.len() implies ls[p + j].indent == (#[trigger] a[j]).0 && ls[p + j].rest
        == a[j].1 by {
        assert(t[j] == a[j]);
    }
    assert forall|j: int| 0 < j < a.len() implies ls[p + j].raw == spaces((#[trigger] a[j]).0) + a[j].1 by {
        assert(t[j] == a[j]);
    }
    assert forall|j: int| 0 <= j < b.len() implies ls[p + a.len() + j].indent == (#[trigger] b[j]).0 && ls[p
        + a.len() + j].rest == b[j].1 by {
        assert(t[a.len() + j] == b[j]);
    }
    assert forall|j: int| 0 < j < b.len() implies ls[p + a.len() + j].raw == spaces((#[trigger] b[j]).0)
        + b[j].1 by {
        assert(t[a.len() + j] == b[j]);
    }
}

/// Two versions of the lines that agree from line `q` on.
pub open spec fn same_from(a: Seq<LineV>, b: Seq<LineV>, q: int) -> bool {
    &&& a.len() == b.len()
    &&& forall|j: int| q <= j < a.len() ==> #[trigger] b[j] == a[j]
}

/// The entries of a map as they are read back.
pub open spec fn read_entries(m: Seq<(Seq<char>, NodeV)>) -> Seq<(Seq<char>, NodeV)> {
    read_tree(NodeV::Mapping(m))->Mapping_0
}

/// The items of a list as they are read back.
pub open spec fn read_items(l: Seq<NodeV>) -> Seq<NodeV> {
    read_tree(NodeV::List(l))->List_0
}

/// What follows `key:` on the first line written for a pair.
pub open spec fn after_colon(n: NodeV) -> Seq<char> {
    match n {
        NodeV::Scalar(s) => if multi_line(s) {
            seq![' ', '"', '"', '"']
        } else {
            seq![' '] + value_spelling(s)
        },
        NodeV::List(l) => if l.len() == 0 {
            seq![' ', '[', ']']
        } else {
            Seq::empty()
        },
        NodeV::Mapping(m) => if m.len() == 0 {
            seq![' ', '{', '}']
        } else {
            Seq::empty()
        },
    }
}

/// The first line written for a pair is its key's spelling, `:`, and what
/// follows.
proof fn lemma_pair_head_shape(n: NodeV, key: Seq<char>, col: nat)
    ensures
        tree_lines(n, Part::Pair(key), col)[0].1 == key_spelling(key, col == 0).push(':') + after_colon(n),
{
    let ks = key_spelling(key, col == 0);
    match n {
        NodeV::Scalar(s) => {
            if multi_line(s) {
                assert(ks + seq![':', ' ', '"', '"', '"'] =~= ks.push(':') + after_colon(n));
            } else {
                assert(flat_line(key, s, col == 0) =~= ks.push(':') + after_colon(n));
            }
        },
        NodeV::List(l) => {
            assert(ks + seq![':', ' ', '[', ']'] =~= ks.push(':') + seq![' ', '[', ']']);
            assert(ks.push(':') + Seq::<char>::empty() =~= ks.push(':'));
        },
        NodeV::Mapping(m) => {
            assert(ks + seq![':', ' ', '{', '}'] =~= ks.push(':') + seq![' ', '{', '}']);
            assert(ks.push(':') + Seq::<char>::empty() =~= ks.push(':'));
        },
    }
}

/// A spelled token, `{}` or `[]` is scanned as it stands, starts with
/// neither `-` nor a space, and names no pair.
proof fn lemma_item_token(v: Seq<char>, line: nat, base: nat)
    requires
        spelled(v) || v == seq!['{', '}'] || v == seq!['[', ']'],
    ensures
        line_ok(v),
        !(v.len() == 1 && v[0] == '-'),
        !(v.len() >= 2 && v[0] == '-' && v[1] == ' '),
        !(path_from(v, 0, Seq::empty(), line, base, false) matches Ok(Some(_))),
{
    reveal_strlit("\"");
    if spelled(v) {
        lemma_token_facts(v);
        assert(v =~= Seq::<char>::empty() + v + Seq::<char>::empty());
        lemma_scan_spelled(Seq::<char>::empty(), v, Seq::<char>::empty());
    } else {
        lemma_scan_plain(v, 0, v.len() as int);
    }
    if v[0] == '"' {
        assert(!bare_word(v));
        assert(!number_word(v)) by {
            if number_word(v) {
                assert(num_char(v[0]));
            }
        }
        let t = choose|t: Seq<char>| v == escape_spec(t);
        super::lemma_escape_spec_reads_back(t, Seq::empty(), line, base);
        assert(escape_spec(t) + Seq::<char>::empty() =~= v);
        assert(v.skip(0) =~= v);
    } else {
        assert forall|j: int| 0 <= j < v.len() implies v[j] != ':' by {
            if bare_word(v) {
                assert(is_alnum(v[j]) || v[j] == '_' || (j > 0 && v[j] == '-'));
            } else if number_word(v) {
                assert(num_char(v[j]));
            } else if spelled(v) {
                let t = choose|t: Seq<char>| v == escape_spec(t);
                assert(v[0] == '"');
            }
        }
        lemma_no_colon_no_pair(v, 0, Seq::empty(), line, base, false);
    }
}

/// A scalar's spelling is one token that reads back as the scalar.
proof fn lemma_scalar_token(s: crate::value::ScalarV, line: nat, col: nat)
    requires
        one_line_scalar(s),
    ensures
        token_spec(value_spelling(s), line, col) == Ok::<NodeV, ErrV>(read_value(s)),
{
    reveal_strlit("true");
    reveal_strlit("false");
    reveal_strlit("null");
    reveal_strlit("{}");
    reveal_strlit("[]");
    let v = value_spelling(s);
    if s.shape == crate::value::Shape::Str {
        lemma_string_token_reads_back(s.text, line, col);
    } else if s.shape == crate::value::Shape::Int || s.shape == crate::value::Shape::Float {
        if s.shape == crate::value::Shape::Int {
            super::ints::lemma_int_spec_facts(s.text);
            super::lemma_int_is_number(v);
        } else {
            super::lemma_float_is_number(s.text);
        }
        assert(num_char(v[0]));
        assert(v != "{}"@ && v != "[]"@ && v != "true"@ && v != "false"@ && v != "null"@) by {
            assert("{}"@[0] == '{');
            assert("[]"@[0] == '[');
            assert("true"@[0] == 't');
            assert("false"@[0] == 'f');
            assert("null"@[0] == 'n');
        }
    }
}

/// A `key:` line followed by the lines of a map indented two columns
/// further reads back as the key and that map.
#[verifier::spinoff_prover]
#[verifier::rlimit(60)]
proof fn lemma_open_map_reads(
    ls: Seq<LineV>,
    p: int,
    key: Seq<char>,
    col: nat,
    depth: nat,
    entries: Seq<(Seq<char>, NodeV)>,
    ls2: Seq<LineV>,
    q: int,
)
    requires
        0 <= p,
        p + 1 < ls.len(),
        ls[p].indent == col,
        ls[p].rest == key_spelling(key, col == 0).push(':'),
        good_content(ls[p].rest),
        ls[p + 1].indent == col + 2,
        good_content(ls[p + 1].rest),
        key.len() > 0,
        (col == 0) == (depth == 1),
        1 <= depth < crate::MAX_DEPTH,
        pairs_spec(ls, p + 1, col + 2, false, depth + 1, Seq::empty()) == Ok::<
            (Seq<(Seq<char>, NodeV)>, Seq<LineV>, int),
            ErrV,
        >((entries, ls2, q)),
    ensures
        pair_spec(ls, p, col, depth == 1, depth) == Ok::<(Seq<Seq<char>>, NodeV, Seq<LineV>, int), ErrV>(
            (seq![key], NodeV::Mapping(entries), ls2, q),
        ),
{
    let ks = key_spelling(key, col == 0);
    lemma_line_ok_stripped(ls[p].rest);
    lemma_line_ok_stripped(ls[p + 1].rest);
    assert(skip_blank(ls, p + 1) == p + 1);
    assert(!marker(stripped(ls[p + 1].rest)));
    assert(crate::serialize::key_spec_at(key, col == 0) == Ok::<Seq<char>, Seq<char>>(ks));
    lemma_key_reads_back(key, Seq::empty(), ls[p].no, col + 1, depth == 1);
    assert(ks.push(':') + Seq::<char>::empty() =~= ks.push(':'));
}

/// A `key:` line followed by the items of a list indented two columns
/// further reads back as the key and that list.
#[verifier::spinoff_prover]
#[verifier::rlimit(60)]
proof fn lemma_open_list_reads(
    ls: Seq<LineV>,
    p: int,
    key: Seq<char>,
    col: nat,
    depth: nat,
    items: Seq<NodeV>,
    ls2: Seq<LineV>,
    q: int,
)
    requires
        0 <= p,
        p + 1 < ls.len(),
        ls[p].indent == col,
        ls[p].rest == key_spelling(key, col == 0).push(':'),
        good_content(ls[p].rest),
        ls[p + 1].indent == col + 2,
        line_ok(ls[p + 1].rest),
        marker(ls[p + 1].rest),
        key.len() > 0,
        (col == 0) == (depth == 1),
        1 <= depth <= crate::MAX_DEPTH,
        items_spec(ls, p + 1, col + 2, depth + 1, Seq::empty()) == Ok::<(Seq<NodeV>, Seq<LineV>, int), ErrV>(
            (items, ls2, q),
        ),
    ensures
        pair_spec(ls, p, col, depth == 1, depth) == Ok::<(Seq<Seq<char>>, NodeV, Seq<LineV>, int), ErrV>(
            (seq![key], NodeV::List(items), ls2, q),
        ),
{
    let ks = key_spelling(key, col == 0);
    lemma_line_ok_stripped(ls[p].rest);
    lemma_line_ok_stripped(ls[p + 1].rest);
    assert(skip_blank(ls, p + 1) == p + 1);
    assert(crate::serialize::key_spec_at(key, col == 0) == Ok::<Seq<char>, Seq<char>>(ks));
    lemma_key_reads_back(key, Seq::empty(), ls[p].no, col + 1, depth == 1);
    assert(ks.push(':') + Seq::<char>::empty() =~= ks.push(':'));
}

/// The token behind a list item's marker reads back as what it denotes.
#[verifier::spinoff_prover]
#[verifier::rlimit(100)]
proof fn lemma_item_token_reads(
    ls: Seq<LineV>,
    p: int,
    col: nat,
    depth: nat,
    v: Seq<char>,
    node: NodeV,
    acc: Seq<NodeV>,
)
    requires
        0 <= p < ls.len(),
        ls[p].indent == col,
        ls[p].rest == seq!['-', ' '] + v,
        line_ok(ls[p].rest),
        spelled(v) || v == seq!['{', '}'] || v == seq!['[', ']'],
        no_triple(v),
        token_spec(v, ls[p].no, col + 3) == Ok::<NodeV, ErrV>(node),
        depth <= crate::MAX_DEPTH,
    ensures
        items_spec(ls, p, col, depth, acc) == items_spec(ls, p + 1, col, depth, acc.push(node)),
{
    reveal_strlit("\"\"\"");
    let l = ls[p];
    lemma_line_ok_stripped(l.rest);
    lemma_item_token(v, l.no, col + 3);
    lemma_line_ok_stripped(v);
    assert(l.rest.skip(2) =~= v);
    assert(l.rest[2] == v[0]);
    assert(v.take(v.len() as int) =~= v);
    assert(v.subrange(0, v.len() as int) =~= v);
    assert(v != "\"\"\""@);
    assert(skip_blank(ls, p) == p);
}

/// A bare `-` followed by the items of a list two columns further reads
/// back as that list.
#[verifier::spinoff_prover]
#[verifier::rlimit(60)]
proof fn lemma_item_list_reads(
    ls: Seq<LineV>,
    p: int,
    col: nat,
    depth: nat,
    items: Seq<NodeV>,
    ls2: Seq<LineV>,
    q: int,
    acc: Seq<NodeV>,
)
    requires
        0 <= p,
        p + 1 < ls.len(),
        ls[p].indent == col,
        ls[p].rest == seq!['-'],
        ls[p + 1].indent == col + 2,
        line_ok(ls[p + 1].rest),
        marker(ls[p + 1].rest),
        depth < crate::MAX_DEPTH,
        items_spec(ls, p + 1, col + 2, depth + 1, Seq::empty()) == Ok::<(Seq<NodeV>, Seq<LineV>, int), ErrV>(
            (items, ls2, q),
        ),
        ls2.len() == ls.len(),
        p + 1 < q <= ls.len(),
    ensures
        items_spec(ls, p, col, depth, acc) == items_spec(ls2, q, col, depth, acc.push(NodeV::List(items))),
{
    let l = ls[p];
    lemma_scan_plain(l.rest, 0, 1);
    assert(crate::lexer::trim_end_len(l.rest, 1) == 1);
    assert(stripped(l.rest) =~= l.rest);
    lemma_line_ok_stripped(ls[p + 1].rest);
    assert(skip_blank(ls, p) == p);
    assert(skip_blank(ls, p + 1) == p + 1);
    assert(crate::deserialize::one_deeper(depth) == depth + 1);
    assert(crate::deserialize::bare_spec(ls, p + 1, col, l.no, depth) == Ok::<(NodeV, Seq<LineV>, int), ErrV>(
        (NodeV::List(items), ls2, q),
    ));
    assert(crate::deserialize::advanced(ls, p, ls2, q));
}

/// A map item whose line is `- ` and content `c` naming the key `k0`
/// reads back as the map its first pair and the rest make.
#[verifier::spinoff_prover]
#[verifier::rlimit(100)]
proof fn lemma_item_map_line_reads(
    ls: Seq<LineV>,
    p: int,
    col: nat,
    depth: nat,
    k0: Seq<char>,
    c: Seq<char>,
    klen: int,
    v0: NodeV,
    ls2: Seq<LineV>,
    q1: int,
    entries: Seq<(Seq<char>, NodeV)>,
    ls3: Seq<LineV>,
    q: int,
    acc: Seq<NodeV>,
)
    requires
        0 <= p < ls.len(),
        ls[p].indent == col,
        ls[p].rest == seq!['-', ' '] + c,
        good_content(c),
        0 < klen < c.len(),
        c[klen] == ':',
        path_from(c, 0, Seq::empty(), ls[p].no, col + 3, false) == Ok::<
            Option<(Seq<Seq<char>>, int)>,
            crate::lexer::ErrV,
        >(Some((seq![k0], klen + 1))),
        depth < crate::MAX_DEPTH,
        pair_spec(crate::deserialize::rewritten(ls, p), p, col + 2, false, depth + 1) == Ok::<
            (Seq<Seq<char>>, NodeV, Seq<LineV>, int),
            ErrV,
        >((seq![k0], v0, ls2, q1)),
        cont_spec(ls2, q1, col + 2, depth + 1, seq![(k0, v0)]) == Ok::<
            (Seq<(Seq<char>, NodeV)>, Seq<LineV>, int),
            ErrV,
        >((entries, ls3, q)),
        ls2.len() == ls.len(),
        ls3.len() == ls.len(),
        p < q1 <= q <= ls.len(),
    ensures
        items_spec(ls, p, col, depth, acc) == items_spec(ls3, q, col, depth, acc.push(NodeV::Mapping(entries))),
{
    reveal_strlit("\"\"\"");
    assert(!(depth > crate::MAX_DEPTH));
    let l = ls[p];
    lemma_marker_line(c);
    assert(l.rest =~= seq!['-', ' '] + c);
    lemma_line_ok_stripped(l.rest);
    lemma_line_ok_stripped(c);
    assert(l.rest.skip(2) =~= c);
    assert(l.rest[2] == c[0]);
    assert(c.take(c.len() as int) =~= c);
    assert(c.subrange(0, c.len() as int) != "\"\"\""@) by {
        assert(c.subrange(0, c.len() as int) =~= c);
        if c.len() == 3 {
            assert(klen < 3);
        }
    }
    assert(skip_blank(ls, p) == p);
    assert(crate::deserialize::insert_spec(Seq::empty(), seq![k0], 0, v0, l.no) == Ok::<
        Seq<(Seq<char>, NodeV)>,
        ErrV,
    >(seq![(k0, v0)]));
    assert(Seq::<(Seq<char>, NodeV)>::empty().push((k0, v0)) =~= seq![(k0, v0)]);
}

/// A map item, its first pair behind the marker and the rest two columns
/// further, reads back as that map.
proof fn lemma_item_map_reads(
    ls: Seq<LineV>,
    p: int,
    col: nat,
    depth: nat,
    k0: Seq<char>,
    h: Seq<char>,
    v0: NodeV,
    ls2: Seq<LineV>,
    q1: int,
    entries: Seq<(Seq<char>, NodeV)>,
    ls3: Seq<LineV>,
    q: int,
    acc: Seq<NodeV>,
)
    requires
        0 <= p < ls.len(),
        ls[p].indent == col,
        ls[p].rest == seq!['-', ' '] + key_spelling(k0, false).push(':') + h,
        good_content(key_spelling(k0, false).push(':') + h),
        k0.len() > 0,
        depth < crate::MAX_DEPTH,
        pair_spec(crate::deserialize::rewritten(ls, p), p, col + 2, false, depth + 1) == Ok::<
            (Seq<Seq<char>>, NodeV, Seq<LineV>, int),
            ErrV,
        >((seq![k0], v0, ls2, q1)),
        cont_spec(ls2, q1, col + 2, depth + 1, seq![(k0, v0)]) == Ok::<
            (Seq<(Seq<char>, NodeV)>, Seq<LineV>, int),
            ErrV,
        >((entries, ls3, q)),
        ls2.len() == ls.len(),
        ls3.len() == ls.len(),
        p < q1 <= q <= ls.len(),
    ensures
        items_spec(ls, p, col, depth, acc) == items_spec(ls3, q, col, depth, acc.push(NodeV::Mapping(entries))),
{
    let ks = key_spelling(k0, false);
    let c = ks.push(':') + h;
    lemma_key_facts(k0, false);
    assert(c[ks.len() as int] == ':');
    assert(crate::serialize::key_spec_at(k0, false) == Ok::<Seq<char>, Seq<char>>(ks));
    lemma_key_reads_back(k0, h, ls[p].no, col + 3, false);
    assert(ls[p].rest =~= seq!['-', ' '] + c);
    lemma_item_map_line_reads(ls, p, col, depth, k0, c, ks.len() as int, v0, ls2, q1, entries, ls3, q, acc);
}

/// Lines that agree from `q1` on, with a run matched from `q1`.
proof fn lemma_same_from_match(
    ls: Seq<LineV>,
    ls2: Seq<LineV>,
    q1: int,
    run: Seq<(nat, Seq<char>)>,
    col: nat,
)
    requires
        same_from(ls, ls2, q1),
        lines_match(ls, q1, run),
        ends_before(ls, q1 + run.len(), col),
    ensures
        lines_match(ls2, q1, run),
        ends_before(ls2, q1 + run.len(), col),
{
    assert forall|j: int| 0 <= j < run.len() implies ls2[q1 + j].indent == (#[trigger] run[j]).0 && ls2[q1
        + j].rest == run[j].1 by {
        assert(ls2[q1 + j] == ls[q1 + j]);
    }
    assert forall|j: int| 0 < j < run.len() implies ls2[q1 + j].raw == spaces((#[trigger] run[j]).0) + run[j].1 by {
        assert(ls2[q1 + j] == ls[q1 + j]);
    }
    if q1 + run.len() < ls.len() {
        assert(ls2[q1 + run.len()] == ls[q1 + run.len()]);
    }
}

/// The reader's lines after a block's opening line are the block's raw
/// lines.
proof fn lemma_block_match(ls: Seq<LineV>, p: int, h: (nat, Seq<char>), r: Seq<Seq<char>>)
    requires
        lines_match(ls, p, seq![h] + raw_lines(r)),
    ensures
        raws_match(ls, p + 1, r),
{
    let t = seq![h] + raw_lines(r);
    assert forall|j: int| 0 <= j < r.len() implies ls[p + 1 + j].raw == #[trigger] r[j] && ls[p + 1 + j].indent
        == lead_spaces(r[j]) && ls[p + 1 + j].rest == after_lead(r[j]) by {
        assert(t[1 + j] == raw_lines(r)[j]);
        assert(raw_lines(r)[j] == as_line(r[j]));
        let x = r[j];
        lemma_lead_le(x);
        assert(x.take(lead_spaces(x) as int) =~= spaces(lead_spaces(x)));
        assert(spaces(lead_spaces(x)) + after_lead(x) =~= x);
    }
}

/// A `key: """` line whose block reads back as a text reads back as the
/// key and that text.
#[verifier::spinoff_prover]
#[verifier::rlimit(60)]
proof fn lemma_block_line_reads(
    ls: Seq<LineV>,
    i: int,
    col: nat,
    depth: nat,
    k: Seq<char>,
    text: Seq<char>,
    q: int,
)
    requires
        0 <= i < ls.len(),
        ls[i].indent == col,
        ls[i].rest == key_spelling(k, col == 0) + seq![':', ' ', '"', '"', '"'],
        good_content(ls[i].rest),
        k.len() > 0,
        (col == 0) == (depth == 1),
        1 <= depth <= crate::MAX_DEPTH,
        crate::deserialize::triple_spec(ls, i + 1, col) == Ok::<(Seq<char>, int), ErrV>((text, q)),
    ensures
        pair_spec(ls, i, col, depth == 1, depth) == Ok::<(Seq<Seq<char>>, NodeV, Seq<LineV>, int), ErrV>(
            (seq![k], crate::deserialize::block_scalar(text), ls, q),
        ),
{
    reveal_strlit("\"\"\"");
    let l = ls[i];
    let ks = key_spelling(k, col == 0);
    let s = l.rest;
    let v = seq!['"', '"', '"'];
    lemma_line_ok_stripped(s);
    assert(crate::serialize::key_spec_at(k, col == 0) == Ok::<Seq<char>, Seq<char>>(ks));
    lemma_key_reads_back(k, seq![' '] + v, l.no, col + 1, depth == 1);
    assert(s =~= ks.push(':') + (seq![' '] + v));
    let after = ks.len() + 1int;
    assert(s[after] == ' ');
    assert(s.subrange(after + 1, s.len() as int) =~= v);
    assert(v == "\"\"\""@);
}

/// A `- """` line whose block reads back as a text reads back as that
/// text.
#[verifier::spinoff_prover]
#[verifier::rlimit(100)]
proof fn lemma_item_block_reads(
    ls: Seq<LineV>,
    p: int,
    col: nat,
    depth: nat,
    text: Seq<char>,
    q: int,
    acc: Seq<NodeV>,
)
    requires
        0 <= p < ls.len(),
        ls[p].indent == col,
        ls[p].rest == seq!['-', ' ', '"', '"', '"'],
        crate::deserialize::triple_spec(ls, p + 1, col + 2) == Ok::<(Seq<char>, int), ErrV>((text, q)),
        p < q <= ls.len(),
        depth <= crate::MAX_DEPTH,
    ensures
        items_spec(ls, p, col, depth, acc) == items_spec(
            ls,
            q,
            col,
            depth,
            acc.push(crate::deserialize::block_scalar(text)),
        ),
{
    reveal_strlit("\"\"\"");
    let l = ls[p];
    lemma_triple_head(seq!['k'], false);
    lemma_line_ok_stripped(l.rest);
    let v = seq!['"', '"', '"'];
    lemma_scan_triple(v, 0);
    assert(crate::lexer::trim_end_len(v, 3) == 3);
    assert(stripped(v) =~= v);
    assert(l.rest.skip(2) =~= v);
    assert(l.rest[2] == '"');
    assert(v.take(3) =~= v);
    assert(v.subrange(0, 3) =~= v);
    assert(v == "\"\"\""@);
    assert(skip_blank(ls, p) == p);
}

/// The lines written for a pair read back as its key and its value.
#[verifier::spinoff_prover]
#[verifier::rlimit(60)]
proof fn lemma_pair_reads(ls: Seq<LineV>, p: int, n: NodeV, key: Seq<char>, col: nat, depth: nat) -> (ls2:
    Seq<LineV>)
    requires
        1 <= depth <= crate::MAX_DEPTH,
        (col == 0) == (depth == 1),
        part_ok(n, Part::Pair(key), depth),
        lines_match(ls, p, tree_lines(n, Part::Pair(key), col)),
        ends_before(ls, p + tree_lines(n, Part::Pair(key), col).len(), col + 1),
    ensures
        pair_spec(ls, p, col, depth == 1, depth) == Ok::<(Seq<Seq<char>>, NodeV, Seq<LineV>, int), ErrV>(
            (seq![key], read_tree(n), ls2, p + tree_lines(n, Part::Pair(key), col).len()),
        ),
        same_from(ls, ls2, p + tree_lines(n, Part::Pair(key), col).len()),
    decreases n, 1int, 0int,
{
    reveal_strlit("true");
    reveal_strlit("false");
    reveal_strlit("null");
    reveal_strlit("{}");
    reveal_strlit("[]");
    let t = tree_lines(n, Part::Pair(key), col);
    lemma_tree_lines_good(n, Part::Pair(key), col, depth);
    let ks = key_spelling(key, col == 0);
    assert(ls[p].indent == col && ls[p].rest == t[0].1);
    match n {
        NodeV::Scalar(s) => {
            if multi_line(s) {
                let r = block_raws(s.text, col + 2, col);
                let h = (col, ks + seq![':', ' ', '"', '"', '"']);
                assert(t == seq![h] + raw_lines(r));
                lemma_block_match(ls, p, h, r);
                lemma_block_reads(ls, p + 1, s.text, col + 2, col);
                lemma_block_line_reads(ls, p, col, depth, key, s.text, p + 1 + r.len());
                ls
            } else {
                lemma_line_facts(key, s, col == 0);
                let v = value_spelling(s);
                let c = col + ks.len() + 3;
                lemma_scalar_token(s, ls[p].no, c);
                lemma_token_line_reads(ls, p, col, depth, key, v, read_value(s));
                ls
            }
        },
        NodeV::List(l) => {
            if l.len() == 0 {
                let v = seq!['[', ']'];
                assert(v == "[]"@);
                assert(ks + seq![':', ' ', '[', ']'] =~= ks + seq![':', ' '] + v);
                assert(token_spec(v, ls[p].no, col + ks.len() + 3) == Ok::<NodeV, ErrV>(NodeV::List(Seq::empty())));
                lemma_token_line_reads(ls, p, col, depth, key, v, NodeV::List(Seq::empty()));
                assert(read_tree(n)->List_0 =~= Seq::<NodeV>::empty());
                ls
            } else {
                let b = tree_lines(n, Part::Items(0), col + 2);
                assert(t == seq![(col, ks.push(':'))] + b);
                assert(t.take(1) + b =~= t);
                lemma_split_match(ls, p, t.take(1), b);
                lemma_tree_lines_good(n, Part::Items(0), col + 2, depth + 1);
                assert(line_ok(b[0].1));
                let ls2 = lemma_items_read(ls, p + 1, l, 0, col + 2, depth + 1);
                assert(read_items(l).take(0) =~= Seq::<NodeV>::empty());
                lemma_open_list_reads(ls, p, key, col, depth, read_items(l), ls2, p + t.len());
                ls2
            }
        },
        NodeV::Mapping(m) => {
            if m.len() == 0 {
                let v = seq!['{', '}'];
                assert(v == "{}"@);
                assert(ks + seq![':', ' ', '{', '}'] =~= ks + seq![':', ' '] + v);
                assert(token_spec(v, ls[p].no, col + ks.len() + 3) == Ok::<NodeV, ErrV>(
                    NodeV::Mapping(Seq::empty()),
                ));
                lemma_token_line_reads(ls, p, col, depth, key, v, NodeV::Mapping(Seq::empty()));
                assert(read_tree(n)->Mapping_0 =~= Seq::<(Seq<char>, NodeV)>::empty());
                ls
            } else {
                let b = tree_lines(n, Part::Entries(0), col + 2);
                assert(t == seq![(col, ks.push(':'))] + b);
                assert(t.take(1) + b =~= t);
                lemma_split_match(ls, p, t.take(1), b);
                lemma_tree_lines_good(n, Part::Entries(0), col + 2, depth + 1);
                assert(good_content(b[0].1));
                let ls2 = lemma_entries_read(ls, p + 1, m, 0, col + 2, depth + 1);
                assert(read_entries(m).take(0) =~= Seq::<(Seq<char>, NodeV)>::empty());
                lemma_open_map_reads(ls, p, key, col, depth, read_entries(m), ls2, p + t.len());
                ls2
            }
        },
    }
}

/// The lines written for the entries `m[k..]` read back as those entries,
/// after the entries before them.
#[verifier::spinoff_prover]
#[verifier::rlimit(60)]
proof fn lemma_entries_read(ls: Seq<LineV>, p: int, m: Seq<(Seq<char>, NodeV)>, k: nat, col: nat, depth: nat) -> (ls2:
    Seq<LineV>)
    requires
        depth >= 1,
        (col == 0) == (depth == 1),
        part_ok(NodeV::Mapping(m), Part::Entries(k), depth),
        lines_match(ls, p, tree_lines(NodeV::Mapping(m), Part::Entries(k), col)),
        ends_before(ls, p + tree_lines(NodeV::Mapping(m), Part::Entries(k), col).len(), col),
    ensures
        pairs_spec(ls, p, col, depth == 1, depth, read_entries(m).take(k as int)) == Ok::<
            (Seq<(Seq<char>, NodeV)>, Seq<LineV>, int),
            ErrV,
        >((read_entries(m), ls2, p + tree_lines(NodeV::Mapping(m), Part::Entries(k), col).len())),
        same_from(ls, ls2, p + tree_lines(NodeV::Mapping(m), Part::Entries(k), col).len()),
    decreases NodeV::Mapping(m), 0int, m.len() - k,
{
    let n = NodeV::Mapping(m);
    let t = tree_lines(n, Part::Entries(k), col);
    let acc = read_entries(m).take(k as int);
    if k < m.len() {
        let e = m[k as int];
        assert(e.0.len() > 0 && tree_ok(e.1, depth + 1));
        let a = tree_lines(e.1, Part::Pair(e.0), col);
        let b = tree_lines(n, Part::Entries(k + 1), col);
        assert(t == a + b);
        lemma_tree_lines_good(n, Part::Entries(k), col, depth);
        lemma_tree_lines_good(e.1, Part::Pair(e.0), col, depth);
        lemma_split_match(ls, p, a, b);
        let q1 = p + a.len();
        if k + 1 < m.len() {
            lemma_tree_lines_good(n, Part::Entries(k + 1), col, depth);
            assert(t[a.len() as int] == b[0]);
            lemma_line_ok_stripped(b[0].1);
        } else {
            assert(b =~= Seq::<(nat, Seq<char>)>::empty());
        }
        assert(ends_before(ls, q1, col + 1));
        assert(depth <= crate::MAX_DEPTH);
        let ls1 = lemma_pair_reads(ls, p, e.1, e.0, col, depth);
        lemma_line_ok_stripped(t[0].1);
        assert(skip_blank(ls, p) == p);
        assert(!marker(stripped(ls[p].rest)));
        crate::value::lemma_map_find(acc, e.0);
        assert(crate::value::map_find(acc, e.0) is None) by {
            if let Some(j) = crate::value::map_find(acc, e.0) {
                assert(acc[j].0 == m[j].0);
            }
        }
        assert(crate::deserialize::insert_spec(acc, seq![e.0], 0, read_tree(e.1), crate::deserialize::last_no(ls1, q1))
            == Ok::<Seq<(Seq<char>, NodeV)>, ErrV>(acc.push((e.0, read_tree(e.1)))));
        assert(acc.push((e.0, read_tree(e.1))) =~= read_entries(m).take(k + 1int));
        lemma_same_from_match(ls, ls1, q1, b, col);
        let ls2 = lemma_entries_read(ls1, q1, m, k + 1, col, depth);
        ls2
    } else {
        assert(t =~= Seq::<(nat, Seq<char>)>::empty());
        assert(acc =~= read_entries(m));
        if p < ls.len() {
            assert(skip_blank(ls, p) == p);
        }
        ls
    }
}

/// The lines written for the entries `m[k..]` of a list item's map read
/// back as those entries, after the entries before them.
#[verifier::spinoff_prover]
#[verifier::rlimit(60)]
proof fn lemma_cont_read(ls: Seq<LineV>, p: int, m: Seq<(Seq<char>, NodeV)>, k: nat, col: nat, depth: nat) -> (ls2:
    Seq<LineV>)
    requires
        depth >= 2,
        col > 0,
        part_ok(NodeV::Mapping(m), Part::Entries(k), depth),
        lines_match(ls, p, tree_lines(NodeV::Mapping(m), Part::Entries(k), col)),
        ends_before(ls, p + tree_lines(NodeV::Mapping(m), Part::Entries(k), col).len(), col),
    ensures
        cont_spec(ls, p, col, depth, read_entries(m).take(k as int)) == Ok::<
            (Seq<(Seq<char>, NodeV)>, Seq<LineV>, int),
            ErrV,
        >((read_entries(m), ls2, p + tree_lines(NodeV::Mapping(m), Part::Entries(k), col).len())),
        same_from(ls, ls2, p + tree_lines(NodeV::Mapping(m), Part::Entries(k), col).len()),
    decreases NodeV::Mapping(m), 0int, m.len() - k,
{
    let n = NodeV::Mapping(m);
    let t = tree_lines(n, Part::Entries(k), col);
    let acc = read_entries(m).take(k as int);
    if k < m.len() {
        let e = m[k as int];
        assert(e.0.len() > 0 && tree_ok(e.1, depth + 1));
        let a = tree_lines(e.1, Part::Pair(e.0), col);
        let b = tree_lines(n, Part::Entries(k + 1), col);
        assert(t == a + b);
        lemma_tree_lines_good(n, Part::Entries(k), col, depth);
        lemma_tree_lines_good(e.1, Part::Pair(e.0), col, depth);
        lemma_split_match(ls, p, a, b);
        let q1 = p + a.len();
        if k + 1 < m.len() {
            lemma_tree_lines_good(n, Part::Entries(k + 1), col, depth);
            assert(t[a.len() as int] == b[0]);
            lemma_line_ok_stripped(b[0].1);
        } else {
            assert(b =~= Seq::<(nat, Seq<char>)>::empty());
        }
        assert(ends_before(ls, q1, col + 1));
        assert(depth <= crate::MAX_DEPTH);
        let ls1 = lemma_pair_reads(ls, p, e.1, e.0, col, depth);
        lemma_line_ok_stripped(t[0].1);
        assert(!marker(stripped(ls[p].rest)));
        crate::value::lemma_map_find(acc, e.0);
        assert(crate::value::map_find(acc, e.0) is None) by {
            if let Some(j) = crate::value::map_find(acc, e.0) {
                assert(acc[j].0 == m[j].0);
            }
        }
        assert(crate::deserialize::insert_spec(acc, seq![e.0], 0, read_tree(e.1), ls[p].no) == Ok::<
            Seq<(Seq<char>, NodeV)>,
            ErrV,
        >(acc.push((e.0, read_tree(e.1)))));
        assert(acc.push((e.0, read_tree(e.1))) =~= read_entries(m).take(k + 1int));
        lemma_same_from_match(ls, ls1, q1, b, col);
        let ls2 = lemma_cont_read(ls1, q1, m, k + 1, col, depth);
        ls2
    } else {
        assert(t =~= Seq::<(nat, Seq<char>)>::empty());
        assert(acc =~= read_entries(m));
        ls
    }
}

/// The lines written for one list item read back as the item.
#[verifier::spinoff_prover]
#[verifier::rlimit(60)]
proof fn lemma_item_reads(ls: Seq<LineV>, p: int, x: NodeV, col: nat, depth: nat, acc: Seq<NodeV>) -> (ls2:
    Seq<LineV>)
    requires
        1 <= depth <= crate::MAX_DEPTH,
        part_ok(x, Part::Item, depth),
        lines_match(ls, p, tree_lines(x, Part::Item, col)),
        ends_before(ls, p + tree_lines(x, Part::Item, col).len(), col + 1),
    ensures
        items_spec(ls, p, col, depth, acc) == items_spec(
            ls2,
            p + tree_lines(x, Part::Item, col).len(),
            col,
            depth,
            acc.push(read_tree(x)),
        ),
        same_from(ls, ls2, p + tree_lines(x, Part::Item, col).len()),
    decreases x, 1int, 0int,
{
    reveal_strlit("true");
    reveal_strlit("false");
    reveal_strlit("null");
    reveal_strlit("{}");
    reveal_strlit("[]");
    let t = tree_lines(x, Part::Item, col);
    lemma_tree_lines_good(x, Part::Item, col, depth);
    assert(ls[p].indent == col && ls[p].rest == t[0].1);
    match x {
        NodeV::Scalar(s) => {
            if multi_line(s) {
                let r = block_raws(s.text, col + 2, col + 2);
                let h = (col, seq!['-', ' ', '"', '"', '"']);
                assert(t == seq![h] + raw_lines(r));
                lemma_block_match(ls, p, h, r);
                lemma_block_reads(ls, p + 1, s.text, col + 2, col + 2);
                lemma_item_block_reads(ls, p, col, depth, s.text, p + 1 + r.len(), acc);
                ls
            } else {
                lemma_value_spelled(s);
                let v = value_spelling(s);
                lemma_scalar_token(s, ls[p].no, col + 3);
                lemma_item_token_reads(ls, p, col, depth, v, read_value(s), acc);
                ls
            }
        },
        NodeV::List(l) => {
            if l.len() == 0 {
                let v = seq!['[', ']'];
                assert(v == "[]"@);
                assert(seq!['-', ' ', '[', ']'] =~= seq!['-', ' '] + v);
                assert(token_spec(v, ls[p].no, col + 3) == Ok::<NodeV, ErrV>(NodeV::List(Seq::empty())));
                lemma_item_token_reads(ls, p, col, depth, v, NodeV::List(Seq::empty()), acc);
                assert(read_tree(x)->List_0 =~= Seq::<NodeV>::empty());
                ls
            } else {
                let b = tree_lines(x, Part::Items(0), col + 2);
                assert(t == seq![(col, seq!['-'])] + b);
                assert(t.take(1) + b =~= t);
                lemma_split_match(ls, p, t.take(1), b);
                lemma_tree_lines_good(x, Part::Items(0), col + 2, depth + 1);
                assert(tree_ok(x, depth + 1));
                let ls2 = lemma_items_read(ls, p + 1, l, 0, col + 2, depth + 1);
                assert(read_items(l).take(0) =~= Seq::<NodeV>::empty());
                lemma_item_list_reads(ls, p, col, depth, read_items(l), ls2, p + t.len(), acc);
                ls2
            }
        },
        NodeV::Mapping(m) => {
            if m.len() == 0 {
                let v = seq!['{', '}'];
                assert(v == "{}"@);
                assert(seq!['-', ' ', '{', '}'] =~= seq!['-', ' '] + v);
                assert(token_spec(v, ls[p].no, col + 3) == Ok::<NodeV, ErrV>(NodeV::Mapping(Seq::empty())));
                lemma_item_token_reads(ls, p, col, depth, v, NodeV::Mapping(Seq::empty()), acc);
                assert(read_tree(x)->Mapping_0 =~= Seq::<(Seq<char>, NodeV)>::empty());
                ls
            } else {
                let e = m[0];
                assert(tree_ok(x, depth + 1));
                assert(e.0.len() > 0 && tree_ok(e.1, depth + 2));
                let head = tree_lines(e.1, Part::Pair(e.0), col + 2);
                let a = behind_marker(head, col);
                let b = tree_lines(x, Part::Entries(1), col + 2);
                assert(t == a + b);
                lemma_tree_lines_good(e.1, Part::Pair(e.0), col + 2, depth + 1);
                lemma_pair_head_shape(e.1, e.0, col + 2);
                let rw = crate::deserialize::rewritten(ls, p);
                assert(lines_match(rw, p, head)) by {
                    assert forall|j: int| 0 <= j < head.len() implies rw[p + j].indent == (#[trigger] head[j]).0
                        && rw[p + j].rest == head[j].1 by {
                        if j == 0 {
                            assert(t[0] == a[0]);
                            assert(ls[p].rest == seq!['-', ' '] + head[0].1);
                            assert((seq!['-', ' '] + head[0].1).skip(2) =~= head[0].1);
                        } else {
                            assert(t[j] == a[j]);
                            assert(a[j] == head[j]);
                        }
                    }
                    assert forall|j: int| 0 < j < head.len() implies rw[p + j].raw == spaces((#[trigger] head[j]).0)
                        + head[j].1 by {
                        assert(t[j] == a[j]);
                        assert(a[j] == head[j]);
                    }
                }
                let q1 = p + head.len();
                if m.len() > 1 {
                    lemma_tree_lines_good(x, Part::Entries(1), col + 2, depth + 1);
                    assert(t[head.len() as int] == b[0]);
                    lemma_line_ok_stripped(b[0].1);
                } else {
                    assert(b =~= Seq::<(nat, Seq<char>)>::empty());
                }
                assert(ends_before(rw, q1, col + 3)) by {
                    if q1 < ls.len() {
                        assert(rw[q1] == ls[q1]);
                    }
                }
                let ls1 = lemma_pair_reads(rw, p, e.1, e.0, col + 2, depth + 1);
                lemma_split_match(ls, p, a, b);
                assert(same_from(ls, ls1, q1)) by {
                    assert forall|j: int| q1 <= j < ls.len() implies #[trigger] ls1[j] == ls[j] by {
                        assert(ls1[j] == rw[j]);
                    }
                }
                assert(ends_before(ls, q1 + b.len(), col + 2));
                lemma_same_from_match(ls, ls1, q1, b, col + 2);
                let ls2 = lemma_cont_read(ls1, q1, m, 1, col + 2, depth + 1);
                assert(read_entries(m).take(1) =~= seq![(e.0, read_tree(e.1))]);
                let h = after_colon(e.1);
                assert(ls[p].rest =~= seq!['-', ' '] + key_spelling(e.0, false).push(':') + h);
                lemma_item_map_reads(
                    ls,
                    p,
                    col,
                    depth,
                    e.0,
                    h,
                    read_tree(e.1),
                    ls1,
                    q1,
                    read_entries(m),
                    ls2,
                    p + t.len(),
                    acc,
                );
                assert(read_tree(x) == NodeV::Mapping(read_entries(m)));
                ls2
            }
        },
    }
}

/// The lines written for the items `l[k..]` read back as those items,
/// after the items before them.
#[verifier::spinoff_prover]
#[verifier::rlimit(60)]
proof fn lemma_items_read(ls: Seq<LineV>, p: int, l: Seq<NodeV>, k: nat, col: nat, depth: nat) -> (ls2: Seq<LineV>)
    requires
        depth >= 1,
        part_ok(NodeV::List(l), Part::Items(k), depth),
        lines_match(ls, p, tree_lines(NodeV::List(l), Part::Items(k), col)),
        ends_before(ls, p + tree_lines(NodeV::List(l), Part::Items(k), col).len(), col),
    ensures
        items_spec(ls, p, col, depth, read_items(l).take(k as int)) == Ok::<
            (Seq<NodeV>, Seq<LineV>, int),
            ErrV,
        >((read_items(l), ls2, p + tree_lines(NodeV::List(l), Part::Items(k), col).len())),
        same_from(ls, ls2, p + tree_lines(NodeV::List(l), Part::Items(k), col).len()),
    decreases NodeV::List(l), 0int, l.len() - k,
{
    let n = NodeV::List(l);
    let t = tree_lines(n, Part::Items(k), col);
    let acc = read_items(l).take(k as int);
    if k < l.len() {
        let x = l[k as int];
        assert(tree_ok(x, depth + 1) && item_ok(x));
        let a = tree_lines(x, Part::Item, col);
        let b = tree_lines(n, Part::Items(k + 1), col);
        assert(t == a + b);
        lemma_tree_lines_good(x, Part::Item, col, depth);
        lemma_split_match(ls, p, a, b);
        let q1 = p + a.len();
        if k + 1 < l.len() {
            lemma_tree_lines_good(n, Part::Items(k + 1), col, depth);
            assert(t[a.len() as int] == b[0]);
            lemma_line_ok_stripped(b[0].1);
        } else {
            assert(b =~= Seq::<(nat, Seq<char>)>::empty());
        }
        assert(ends_before(ls, q1, col + 1));
        assert(depth <= crate::MAX_DEPTH);
        let ls1 = lemma_item_reads(ls, p, x, col, depth, acc);
        assert(acc.push(read_tree(x)) =~= read_items(l).take(k + 1int));
        lemma_same_from_match(ls, ls1, q1, b, col);
        let ls2 = lemma_items_read(ls1, q1, l, k + 1, col, depth);
        ls2
    } else {
        assert(t =~= Seq::<(nat, Seq<char>)>::empty());
        assert(acc =~= read_items(l));
        if p < ls.len() {
            assert(skip_blank(ls, p) == p);
        }
        ls
    }
}

/// The writer ignores raw tokens: what it writes for a node in any role
/// is what it writes for the node with every raw token dropped.
pub proof fn lemma_ser_ignores_raw(n: NodeV, e: Emit, col: nat, depth: nat)
    ensures
        ser(n, e, col, depth) == ser(erase(n), e, col, depth),
    decreases n, emit_rank(e), emit_left(n, e),
{
    let x = erase(n);
    match e {
        Emit::MapBody => {
            lemma_ser_ignores_raw(n, Emit::Entries(0), col, depth);
        },
        Emit::ListBody => {
            lemma_ser_ignores_raw(n, Emit::Items(0), col, depth);
        },
        Emit::Entries(k) => {
            if let NodeV::Mapping(m) = n {
                if k < m.len() {
                    assert(x->Mapping_0[k as int] == (m[k as int].0, erase(m[k as int].1)));
                    lemma_ser_ignores_raw(m[k as int].1, Emit::Pair(m[k as int].0), col, depth);
                    lemma_ser_ignores_raw(n, Emit::Entries(k + 1), col, depth);
                }
            }
        },
        Emit::Items(k) => {
            if let NodeV::List(l) = n {
                if k < l.len() {
                    assert(x->List_0[k as int] == erase(l[k as int]));
                    lemma_ser_ignores_raw(l[k as int], Emit::Item, col, depth);
                    lemma_ser_ignores_raw(n, Emit::Items(k + 1), col, depth);
                }
            }
        },
        Emit::Pair(_) | Emit::Inline(_) => {
            if !(n is Scalar) {
                lemma_ser_ignores_raw(n, crate::serialize::nested_mode(n), col + 2, depth + 1);
            }
        },
        Emit::Item => {
            match n {
                NodeV::Mapping(m) => {
                    if m.len() > 0 {
                        assert(x->Mapping_0[0] == (m[0].0, erase(m[0].1)));
                        lemma_ser_ignores_raw(m[0].1, Emit::Inline(m[0].0), col + 2, depth + 1);
                        lemma_ser_ignores_raw(n, Emit::Entries(1), col + 2, depth + 1);
                    }
                },
                NodeV::List(l) => {
                    if l.len() > 0 {
                        lemma_ser_ignores_raw(n, Emit::ListBody, col + 2, depth + 1);
                    }
                },
                NodeV::Scalar(_) => {},
            }
        },
    }
}

/// Reading back changes nothing that equality compares: only raw tokens
/// and the grouping of integers' digits.
pub proof fn lemma_read_tree_compared(n: NodeV, depth: nat)
    requires
        tree_ok(n, depth),
        wf_node(n),
    ensures
        compared(read_tree(n)) == compared(n),
    decreases n,
{
    if let NodeV::Mapping(m) = n {
        crate::value::lemma_wf_map(m);
    }
    match n {
        NodeV::Scalar(s) => {
            if s.shape == crate::value::Shape::Int {
                super::ints::lemma_int_plain(s.text);
            }
        },
        NodeV::List(l) => {
            let r = read_tree(n)->List_0;
            assert(read_tree(n) == NodeV::List(r));
            let a = compared(read_tree(n))->List_0;
            let b = compared(n)->List_0;
            assert(compared(read_tree(n)) == NodeV::List(a));
            assert(compared(n) == NodeV::List(b));
            assert forall|i: int| 0 <= i < l.len() implies a[i] == b[i] by {
                assert(tree_ok(l[i], depth + 1));
                lemma_read_tree_compared(l[i], depth + 1);
                assert(r[i] == read_tree(l[i]));
            }
            assert(a =~= b);
        },
        NodeV::Mapping(m) => {
            let r = read_tree(n)->Mapping_0;
            assert(read_tree(n) == NodeV::Mapping(r));
            let a = compared(read_tree(n))->Mapping_0;
            let b = compared(n)->Mapping_0;
            assert(compared(read_tree(n)) == NodeV::Mapping(a));
            assert(compared(n) == NodeV::Mapping(b));
            assert forall|i: int| 0 <= i < m.len() implies a[i] == b[i] by {
                assert(tree_ok(m[i].1, depth + 1));
                lemma_read_tree_compared(m[i].1, depth + 1);
                assert(r[i] == (m[i].0, read_tree(m[i].1)));
            }
            assert(a =~= b);
        },
    }
}

/// What is read back is again a tree the writer writes and the reader
/// reads back.
proof fn lemma_read_tree_ok(n: NodeV, depth: nat)
    requires
        tree_ok(n, depth),
    ensures
        tree_ok(read_tree(n), depth),
    decreases n,
{
    match n {
        NodeV::Scalar(s) => {
            if s.shape == crate::value::Shape::Int {
                super::ints::lemma_int_spec_facts(s.text);
                super::ints::lemma_int_plain(crate::serialize::int_spec(s.text)->Some_0);
            }
        },
        NodeV::List(l) => {
            let r = read_tree(n)->List_0;
            assert(read_tree(n) == NodeV::List(r));
            assert forall|i: int| 0 <= i < r.len() implies tree_ok(#[trigger] r[i], depth + 1) && item_ok(r[i]) by {
                assert(tree_ok(l[i], depth + 1) && item_ok(l[i]));
                lemma_read_tree_ok(l[i], depth + 1);
                assert(r[i] == read_tree(l[i]));
            }
        },
        NodeV::Mapping(m) => {
            let r = read_tree(n)->Mapping_0;
            assert(read_tree(n) == NodeV::Mapping(r));
            assert forall|i: int| 0 <= i < r.len() implies (#[trigger] r[i]).0.len() > 0 && tree_ok(r[i].1, depth + 1) by {
                assert(m[i].0.len() > 0 && tree_ok(m[i].1, depth + 1));
                lemma_read_tree_ok(m[i].1, depth + 1);
                assert(r[i] == (m[i].0, read_tree(m[i].1)));
            }
            assert(keys_unique(r)) by {
                assert forall|i: int, j: int| 0 <= i < j < r.len() implies r[i].0 != r[j].0 by {
                    assert(r[i].0 == m[i].0);
                    assert(r[j].0 == m[j].0);
                }
            }
        },
    }
}

/// What is read back is written as the same lines.
proof fn lemma_read_lines(n: NodeV, p: Part, col: nat, depth: nat)
    requires
        depth >= 1,
        part_ok(n, p, depth),
    ensures
        tree_lines(read_tree(n), p, col) == tree_lines(n, p, col),
    decreases n, part_rank(p), part_left(n, p),
{
    let x = read_tree(n);
    match n {
        NodeV::Scalar(s) => {
            if s.shape == crate::value::Shape::Int {
                super::ints::lemma_int_spec_facts(s.text);
                super::ints::lemma_int_plain(crate::serialize::int_spec(s.text)->Some_0);
            }
            if !multi_line(s) {
                assert(value_spelling(x->Scalar_0) == value_spelling(s));
            }
        },
        NodeV::List(l) => {
            let r = x->List_0;
            assert(x == NodeV::List(r));
            match p {
                Part::Items(k) => {
                    if k < l.len() {
                        assert(tree_ok(l[k as int], depth + 1) && item_ok(l[k as int]));
                        lemma_read_lines(l[k as int], Part::Item, col, depth);
                        lemma_read_lines(n, Part::Items(k + 1), col, depth);
                        assert(r[k as int] == read_tree(l[k as int]));
                    }
                },
                Part::Pair(_) => {
                    if l.len() > 0 {
                        lemma_read_lines(n, Part::Items(0), col + 2, depth + 1);
                    }
                },
                Part::Item => {
                    if l.len() > 0 {
                        lemma_read_lines(n, Part::Items(0), col + 2, depth + 1);
                    }
                },
                Part::Entries(_) => {},
            }
        },
        NodeV::Mapping(m) => {
            let r = x->Mapping_0;
            assert(x == NodeV::Mapping(r));
            match p {
                Part::Entries(k) => {
                    if k < m.len() {
                        let e = m[k as int];
                        assert(e.0.len() > 0 && tree_ok(e.1, depth + 1));
                        lemma_read_lines(e.1, Part::Pair(e.0), col, depth);
                        lemma_read_lines(n, Part::Entries(k + 1), col, depth);
                        assert(r[k as int] == (e.0, read_tree(e.1)));
                    }
                },
                Part::Pair(_) => {
                    if m.len() > 0 {
                        lemma_read_lines(n, Part::Entries(0), col + 2, depth + 1);
                    }
                },
                Part::Item => {
                    if m.len() > 0 {
                        let e = m[0];
                        assert(e.0.len() > 0 && tree_ok(e.1, depth + 2));
                        lemma_read_lines(e.1, Part::Pair(e.0), col + 2, depth + 1);
                        lemma_read_lines(n, Part::Entries(1), col + 2, depth + 1);
                        assert(r[0] == (e.0, read_tree(e.1)));
                    }
                },
                Part::Items(_) => {},
            }
        },
    }
}

/// A document of nested maps and lists, with distinct non-empty keys and
/// nesting within the depth limit, whose leaves are strings, booleans,
/// nulls, float and integer literals and empty collections, is written
/// without error; what is written reads back as the document with its
/// integers' digits grouped as the writer groups them and its nulls as
/// `null`: the same keys in the same order, the same items, the same
/// values, each scalar's raw token being the writer's spelling of it; and
/// writing what was read back gives the same text.
pub proof fn lemma_document_reads_back(m: Seq<(Seq<char>, NodeV)>)
    requires
        tree_ok(NodeV::Mapping(m), 1),
    ensures
        to_string_spec(NodeV::Mapping(m)) matches Some(Ok(text)) && document_spec(text) == Ok::<NodeV, ErrV>(
            read_tree(NodeV::Mapping(m)),
        ) && to_string_spec(read_tree(NodeV::Mapping(m))) == Some(Ok::<Seq<char>, Seq<char>>(text)),
{
    let doc = NodeV::Mapping(m);
    let lines = tree_lines(doc, Part::Entries(0), 0);
    let text = joined(lines);
    lemma_tree_ser(doc, Part::Entries(0), 0, 1, 1);
    assert(to_string_spec(doc) == Some(Ok::<Seq<char>, Seq<char>>(text)));
    lemma_tree_lines_good(doc, Part::Entries(0), 0, 1);
    lemma_joined_lines(lines);
    let ls = text_lines(text);
    assert(lines_match(ls, 0, lines)) by {
        assert forall|j: int| 0 <= j < lines.len() implies ls[0 + j].indent == (#[trigger] lines[j]).0 && ls[0
            + j].rest == lines[j].1 by {
            assert(ls[j].indent == lines[j].0);
        }
        assert forall|j: int| 0 < j < lines.len() implies ls[0 + j].raw == spaces((#[trigger] lines[j]).0)
            + lines[j].1 by {
            assert(ls[j].indent == lines[j].0);
        }
    }
    let _ls2 = lemma_entries_read(ls, 0, m, 0, 0, 1);
    assert(read_entries(m).take(0) =~= Seq::<(Seq<char>, NodeV)>::empty());
    assert(document_spec(text) == Ok::<NodeV, ErrV>(read_tree(doc)));
    let back = read_tree(doc);
    lemma_read_tree_ok(doc, 1);
    lemma_read_lines(doc, Part::Entries(0), 0, 1);
    assert(back == NodeV::Mapping(read_entries(m)));
    lemma_tree_ser(back, Part::Entries(0), 0, 1, 1);
}

/// A well-formed tree within the depth budget of slot `depth` is one the
/// writer writes and the reader reads back.
proof fn lemma_wf_tree_ok(n: NodeV, depth: nat)
    requires
        depth >= 1,
        wf_node(n),
        depth_ok(n, crate::MAX_DEPTH + 1 - depth),
    ensures
        tree_ok(n, depth),
    decreases n,
{
    match n {
        NodeV::Scalar(s) => {},
        NodeV::List(l) => {
            assert forall|i: int| 0 <= i < l.len() implies tree_ok(#[trigger] l[i], depth + 1) && item_ok(l[i]) by {
                assert(wf_node(l[i]));
                assert(depth_ok(l[i], crate::MAX_DEPTH + 1 - depth - 1));
                lemma_wf_tree_ok(l[i], depth + 1);
            }
        },
        NodeV::Mapping(m) => {
            crate::value::lemma_wf_map(m);
            crate::value::lemma_depth_map_elim(m, crate::MAX_DEPTH + 1 - depth);
            assert forall|i: int| 0 <= i < m.len() implies (#[trigger] m[i]).0.len() > 0 && tree_ok(m[i].1, depth + 1) by {
                lemma_wf_tree_ok(m[i].1, depth + 1);
            }
            if m.len() > 0 {
                assert(m[0] == m[0]);
            }
        },
    }
}

/// Every well-formed document within the depth limit, which every
/// document the reader returns is (see `from_str`), is written without
/// error, and what is written reads back as a document equal to it: the
/// same keys in the same order, the same items, the same shapes and
/// texts, integers by value, only raw tokens and the grouping of
/// integers' digits being the writer's spellings; writing what was read
/// back gives the same text again.
pub proof fn lemma_parsed_document_round_trips(m: Seq<(Seq<char>, NodeV)>)
    requires
        wf_node(NodeV::Mapping(m)),
        depth_ok(NodeV::Mapping(m), crate::MAX_DEPTH as int),
    ensures
        to_string_spec(NodeV::Mapping(m)) matches Some(Ok(text)) && document_spec(text) matches Ok(back) && compared(
            back,
        ) == compared(NodeV::Mapping(m)) && to_string_spec(back) == Some(Ok::<Seq<char>, Seq<char>>(text)),
{
    lemma_wf_tree_ok(NodeV::Mapping(m), 1);
    lemma_document_reads_back(m);
    lemma_read_tree_compared(NodeV::Mapping(m), 1);
}

/// A tree whose maps each have distinct keys and whose integers, floats
/// and booleans hold literals of their kind; strings and nulls may hold
/// any text.
pub open spec fn typed_tree(n: NodeV) -> bool
    decreases n,
{
    match n {
        NodeV::Scalar(s) => s.shape == crate::value::Shape::Null || crate::value::wf_scalar(s),
        NodeV::Mapping(m) => keys_unique(m) && forall|i: int| 0 <= i < m.len() ==> typed_tree(#[trigger] m[i].1),
        NodeV::List(l) => forall|i: int| 0 <= i < l.len() ==> typed_tree(#[trigger] l[i]),
    }
}

/// What the writer writes without error for a role of a typed tree, at
/// writer slot `d`, is a part the reader reads back: the writer refuses
/// empty keys and, before it writes them, maps and lists whose contents
/// would sit past the depth limit.
proof fn lemma_ok_tree(n: NodeV, e: Emit, col: nat, d: nat)
    requires
        d >= 1,
        typed_tree(n),
        ser(n, e, col, d) matches Some(Ok(_)),
    ensures
        match e {
            Emit::MapBody => n is Mapping ==> tree_ok(n, d),
            Emit::ListBody => n is List ==> tree_ok(n, d),
            Emit::Entries(k) => n is Mapping ==> forall|i: int|
                k <= i < n->Mapping_0.len() ==> (#[trigger] n->Mapping_0[i]).0.len() > 0 && tree_ok(
                    n->Mapping_0[i].1,
                    d + 1,
                ),
            Emit::Items(k) => n is List ==> forall|i: int|
                k <= i < n->List_0.len() ==> tree_ok(#[trigger] n->List_0[i], d + 1) && item_ok(n->List_0[i]),
            Emit::Pair(key) => key.len() > 0 && tree_ok(n, d + 1),
            Emit::Inline(key) => key.len() > 0 && tree_ok(n, d + 1),
            Emit::Item => tree_ok(n, d + 1) && item_ok(n),
        },
    decreases n, emit_rank(e), emit_left(n, e),
{
    match e {
        Emit::MapBody => {
            if d <= 100 {
                lemma_ok_tree(n, Emit::Entries(0), col, d);
            }
        },
        Emit::ListBody => {
            if d <= 100 {
                lemma_ok_tree(n, Emit::Items(0), col, d);
            }
        },
        Emit::Entries(k) => {
            if let NodeV::Mapping(m) = n {
                if k < m.len() {
                    assert(typed_tree(m[k as int].1));
                    lemma_ok_tree(m[k as int].1, Emit::Pair(m[k as int].0), col, d);
                    lemma_ok_tree(n, Emit::Entries(k + 1), col, d);
                }
            }
        },
        Emit::Items(k) => {
            if let NodeV::List(l) = n {
                if k < l.len() {
                    assert(typed_tree(l[k as int]));
                    lemma_ok_tree(l[k as int], Emit::Item, col, d);
                    lemma_ok_tree(n, Emit::Items(k + 1), col, d);
                }
            }
        },
        Emit::Pair(key) | Emit::Inline(key) => {
            match n {
                NodeV::Mapping(m) => {
                    if m.len() > 0 {
                        lemma_ok_tree(n, Emit::MapBody, col + 2, d + 1);
                    }
                },
                NodeV::List(l) => {
                    if l.len() > 0 {
                        lemma_ok_tree(n, Emit::ListBody, col + 2, d + 1);
                    }
                },
                NodeV::Scalar(_) => {},
            }
        },
        Emit::Item => {
            match n {
                NodeV::Mapping(m) => {
                    if m.len() > 0 {
                        assert(typed_tree(m[0].1));
                        lemma_ok_tree(m[0].1, Emit::Inline(m[0].0), col + 2, d + 1);
                        lemma_ok_tree(n, Emit::Entries(1), col + 2, d + 1);
                        assert forall|i: int| 0 <= i < m.len() implies (#[trigger] m[i]).0.len() > 0 && tree_ok(
                            m[i].1,
                            d + 2,
                        ) by {
                            if i > 0 {
                                assert(n->Mapping_0[i] == m[i]);
                            }
                        }
                    }
                },
                NodeV::List(l) => {
                    if l.len() > 0 {
                        lemma_ok_tree(n, Emit::ListBody, col + 2, d + 1);
                    }
                },
                NodeV::Scalar(_) => {},
            }
        },
    }
}

/// Whatever the writer writes without error for a document whose maps
/// each have distinct keys and whose integers, floats and booleans hold
/// literals of their kind is read back without error, as the document
/// with each scalar's raw token the writer's spelling, integers' digits
/// grouped as the writer groups them and nulls as `null`. The writer
/// refuses what would not read back for its depth or an empty key.
pub proof fn lemma_written_reads_back(m: Seq<(Seq<char>, NodeV)>)
    requires
        typed_tree(NodeV::Mapping(m)),
    ensures
        to_string_spec(NodeV::Mapping(m)) matches Some(Ok(text)) ==> document_spec(text) == Ok::<NodeV, ErrV>(
            read_tree(NodeV::Mapping(m)),
        ),
{
    let doc = NodeV::Mapping(m);
    if to_string_spec(doc) matches Some(Ok(_)) {
        lemma_ok_tree(doc, Emit::MapBody, 0, 1);
        lemma_document_reads_back(m);
    }
}

} // verus!
