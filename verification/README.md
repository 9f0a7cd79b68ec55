# toml_rust_parser

A TOML reader and writer whose lexer, parser, table builder and printer are
verified with Verus.

## Layout

- `src/grammar.rs`: the lexical grammar as spec functions, the token a text
  gives at each position.
- `src/lexer.rs`: the lexer, proved to read tokens as the grammar says.
- `src/syntax.rs`: the document grammar over tokens: what reading a value, a
  key/value line, a header and a whole document gives (`parse_spec`).
- `src/tracker.rs`: how tables are built from keys and headers, and the
  rules on what may be defined twice, over an arena of nodes.
- `src/parser.rs`: the parser, proved against `syntax.rs`.
- `src/table.rs`: the ordered table type (keys kept by `indexmap`).
- `src/layout.rs`, `src/printer.rs`: the text the printer writes, and the
  printer proved to write it.
- `src/rules.rs`, `src/roundtrip.rs`, `src/sections.rs`: laws: keys and
  tables defined once; printed strings, values and documents read back
  (with `\n` or `\r\n` line ends, with or without comments); spacing around
  `=` and `.` does not matter; duplicate keys and headers are refused.
- `app/`: conversions to a value type with `f64` floats and `IndexMap`
  tables, float formatting, and `Display` for errors.
- `tests/`: tests on concrete documents.
