# grammar_expressions

A small PEG / regular-expression style pattern language, verified with Verus:
literals, grouping, ordered choice `|`, the wildcard `.`, character classes
(`[A-Za-z]`, `[^0-9]`), the repetitions `*`, `+` and `?`, and named captures
`{name:expression}`; whole matches, searches, capture-aware replacement and
rule-based rewriting.

Layout of `src/`:

- `text.rs` – characters of strings, building strings, UTF-8 byte offsets.
- `captures.rs` – named captures as an ordered map (a name-sorted list).
- `expression.rs` – the expression tree and its mathematical model.
- `matcher.rs` – the ordered, backtracking semantics and the matcher.
- `engine.rs` – whole matches, searches and replacement over an expression.
- `parser.rs` – the pattern grammar and the parser.
- `patterns.rs` – the same operations on patterns given as text.
- `rewrite.rs` – ordered rewrite rules.

`app/main.rs` is the command-line program (`match`, `find`, `replace`,
`rewrite`).
