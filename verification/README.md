# jlang

A small interpreter for a subset of the J array language, verified with Verus.

Values are integer matrices of `u32` cells. The interpreter knows the monadic
verbs `i.` `$` `#` `|:` `[` `]` `>:`, the dyadic verbs `+` `*` `[` `]`, the
adverbs `/` (insert, table) and `\` (prefix, infix), and assignment with `=:`.

## Layout

- `src/mat.rs`: `Mat`, the mathematical value of an array, and lemmas on
  row-major offsets.
- `src/array.rs`: `A`, the executable array, its allocation, indexing and
  comparisons.
- `src/verbs.rs`, `src/adverbs.rs`: the verbs and adverbs, each stated as a
  spec function over `Mat`.
- `src/display.rs`: the text of an array.
- `src/symbol.rs`: symbol names and the symbol table, viewed as a `Map`.
- `src/lex.rs`, `src/parse.rs`: splitting a line into tokens and building the
  syntax tree, each against a spec function.
- `src/eval.rs`: evaluation of a tree against the symbol table.
- `src/laws.rs`: properties that span several operations.
- `app/main.rs`: the interactive prompt.
