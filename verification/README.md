# tomllib

A TOML document model that keeps every character of its source: whitespace,
comments and the order of keys survive reading and rendering. The library is
written in Verus; each function carries a contract that Verus proves.

- `src/types.rs`: dates and times as written, string kinds, subkey records.
- `src/ast/`: the syntax tree (`structs.rs`, `values.rs`, `document.rs`), its
  rendering (`to_string`, specified by `text`) and equality (`same`), and the
  dotted names of table headers (`keys.rs`).
- `src/grammar.rs`: where whitespace, comments and keys end.
- `src/parser.rs`: readers for table headers, subkeys, separators, comments
  and newlines; each states that rendering what it read gives back the text
  it consumed.
- `src/value_parser.rs`: readers for values (numbers, booleans, dates, strings,
  arrays, inline tables) and key/value pairs, with the same promise.
- `src/objects.rs`: the key map of a document and helpers for the bookkeeping
  of table headers: the implicit tables a header registers, the index of an
  array of tables, the set of subtables of a table, the header stack for a new
  standard table (which flags a header that repeats the one on top) and for a
  new array of tables, and the mixed-array report.
- `src/state.rs`: the state kept while reading (key map, header stack, array
  kinds, errors reported without stopping) and its steps for a standard table
  header, an array of tables header, and the values of arrays.
- `src/laws.rs`: properties across operations (equality is an equivalence,
  subtables, inserting twice, reading after writing, the implicit-table walk).
- `src/readback.rs`: reading a rendered table header or comment gives it back.
- `app/main.rs`: a small program that reads table headers from its arguments.
