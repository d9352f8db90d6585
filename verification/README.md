# liver-shot

A lightweight JSON value position extractor, verified with Verus. `find("a.b", json)`
returns the byte span of the value at a dotted path instead of a parsed value;
`Span::get` and `Span::value` read it back, and `Span::find` continues a search
from a span.

Layout of `src/`:

- `scanner.rs` measures one token at the start of a byte slice (string, array,
  object, bare value, whitespace); each scanner is described by a spec function.
- `parser.rs` walks a dotted path with the scanners; `lib.rs` holds `find` and its
  spec `find_spec`, and the law that a longer path extends a shorter one.
- `cursor.rs` is a cursor that steps through a document in place; it backs
  `Span::find`. Each operation is described by the position it ends at and its outcome.
- `span.rs` holds `Span` and `Value`; `boundary.rs` proves that spans next to ASCII
  bytes lie on UTF-8 character boundaries, so what `find` returns can be read back.
- `error.rs` and `chars.rs` hold the error type and the byte classes.
- `grammar.rs` recognizes well-formed JSON (the length of the value, member list or
  element list a text starts with) and proves that the scanners measure such values
  whole.
- `agreement.rs` proves that on well-formed JSON the cursor and the path search
  agree: `Span::find` from a span `find` returned gives what `find` gives for the
  longer path, and a key gives the value of the first member of that name.
