# legend

A verified Pure grammar front end and the relation (TDS) algorithms behind
the engine's relation natives.

- `src/lexer.rs` — the tokenizer, specified character by character
  (`lexemes`), and the byte-offset to line/column index.
- `src/grammar.rs`, `src/parser.rs`, `src/expr.rs` — the document parser
  (classes, profiles, functions in `###Pure` sections, other sections handed
  to registered section plugins) and the Pratt expression parser; `grammar.rs` states, for every construct, what is read
  from the tokens or why the parse fails, and the parser is proved to do
  exactly that.
- `src/emitter.rs` — protocol JSON for parsed elements, and the answer to a
  parse request.
- `src/tds.rs`, `src/window.rs`, `src/natives.rs` — relations, their
  rendering, cell ordering (integers against doubles compared exactly),
  partitions, stable sorting, frames, and the relation natives (drop, slice,
  filter, map, extend, join, groupBy, ranking, offset/first/last/nth,
  reduce).
- `src/laws.rs` — properties across operations (partitions cover every row
  once, window slots and default frames, dense rank ≤ rank ≤ row number,
  dropping twice, slicing, array extends, joins' rows and sizes, groupBy
  rows, reduce against the window aggregate, tiles).
- `src/classpath.rs` — the classpath generator's rules, descriptor reading
  (JSON through `serde_json`) and file text.
- `app/` — the command line (`gen-classpath`), the JNI entry point, JSON
  conversion and value-range frames (decided in floating point).
