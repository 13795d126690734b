# nanotero

A reader for `.tero` configuration files, verified with Verus.

## Layout

- `src/` — the library, every function with its contract:
  - `grammar`, `utf8_facts`: the byte-level grammar (blanks, digits, keys,
    line ends) and the UTF-8 facts the cursor relies on.
  - `source`: `Src`, the cursor over the document, with `Location` and
    `Span`.
  - `token`, `lexer`: the tokens and the lexer (`Lexer`), specified by
    `lex_next` / `next_step` over the bytes of the document.
  - `parser`: the pull parsers `ScopeTracker` and `ArrayTracker`.
  - `report`, `error`: the excerpt shown under an error and `TeroError`.
  - `text`, `text_format`: building strings and replacing escapes.
  - `deserialize`, `collections`, `value`, `document`: the `Deserialize`
    trait, its impls for std types and `Value`, and `from_str`.
  - `loom_lexer`, `loom_parser`: the Loom reading of Tero (`TERO 0`
    documents parsed straight into a `Value` tree).
  - `laws`: properties that relate several calls.
- `tests/` — the tests.
- `app/` — `Display`/`Error` impls through `thiserror`, and the conversion of
  floats to `f64`.

Floats are kept as written (sign, integer part, fraction digits); their
`f64` value is computed in `app/`.
