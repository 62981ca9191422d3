# fluent

Parsing and serialization of the Fluent Translation List (FTL) format, verified with
Verus.

- `src/parser/` — the recursive-descent parser (`Parser`, `parse`), whose every step
  is stated against the grammar in `parser/grammar.rs`; the byte stream helpers
  (`ftlstream`); a token lexer (`lexer`) and the parser built on its tokens
  (`parser`, with its tree in `tree`); error kinds and their messages (`errors`).
  `parser/properties.rs` holds what holds of every parse.
- `src/serializer.rs` — writes a resource back as FTL text, stated as a function of
  the text written so far.
- `src/parser2/` — a second, smaller lexer for messages and comments.
- `src/round_trip.rs` — messages and terms with plain comments, values of text and
  placeables on one line or of several lines mixing text, placeables and select
  expressions, plain attributes, comments of their own, and lines of junk, read back
  unchanged once written out; junk is left out when written without it.
- `src/ast.rs`, `src/model.rs` — the syntax tree and its mathematical model.
- `src/pseudo.rs` — pseudo-localization of texts.
- `src/arc_str.rs` — string slices into reference-counted bytes.
- `src/localization.rs` — which bundle's answer a localization keeps, falling back from
  one locale to the next, and which errors it reports.
- `src/cli.rs`, `src/testing.rs`, `src/fallback.rs` — what the command line computes
  for its reports, test scenario data, and the types a localization hands back.
- `app/` — the command-line parser: reads a file, prints its tree and its errors.
