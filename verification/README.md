# kvd_rs

KVD (Key-Value Document) is a human-readable configuration format: dotted
keys, two-space indentation, `-` list items, double-quoted strings,
`"""` blocks, and a companion schema language. This crate reads and writes
KVD, checks documents against schemas, and edits document trees; its
behaviour is stated in contracts and proved with Verus.

Layout of `src/`:

- `value` — the node model (`Scalar`, `Mapping`, `Node`) and its views,
  path navigation (`get`, `get_path`, ...).
- `grammar` — token predicates (keys, metakeys, type names, numbers).
- `lexer` — line-level rules: comments, tabs, trailing space, escapes,
  quoted strings.
- `deserialize` — the reader. `document_spec` says, line by line, what a
  text reads as (or which error it meets first); `from_str` is proved to
  return exactly that.
- `serialize` — the writer. `to_string_spec` gives the canonical text of a
  tree; `to_string` is proved to produce it.
- `readback` — laws tying the two: every string value and every key the
  writer spells on one line reads back as itself; `readback/nested`
  proves that every well-formed document within the depth limit, which
  every document the reader returns is, is written without error, reads
  back as a document equal to it (equality compares integers by value,
  so `1000` and the writer's `1_000` are equal), and is written again to
  the same text; and that whatever the writer writes without error for
  a tree with distinct keys and literals of their kind reads back, with
  `readback/block` for `"""` blocks (a string whose
  block would not read back is written quoted instead) and
  `readback/ints` for integer grouping.
- `schema` (with `schema/check`) — schema well-formedness (`validate_schema`)
  and document checking (`verify`), each against a spec of the violations
  in the order they are reported, plus the laws on optional keys, nulls,
  empty literals, malformed schemas and integer range comparison.
- `ops` — path-addressed editing (`get`, `set`, `remove`,
  `remove_recursive`) with laws relating reads and writes.
- `text`, `error` — character-sequence helpers and the error model.

Regular expressions for `pattern` constraints come from the `regex` crate,
called through two small trusted wrappers in `schema`.

`app/` holds what stays outside the verified library: the serde bridge
(`from_str`/`to_string` for any `Serialize`/`Deserialize` type, readers,
writers and files) and float conversions.
