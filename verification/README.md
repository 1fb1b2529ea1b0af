# c1_parser

A recursive-descent parser for the C1 language, verified with Verus.

- `src/lexer.rs`: the tokens of C1, the lexer (longest match, keywords before
  identifiers, comments and blanks skipped, line numbers counted from 1) and
  its specification `lex`.
- `src/c1_parser.rs`: `C1Parser`, one method per grammar rule, each proved to
  do what the `p_*` specification functions say, error messages included.
- `src/grammar.rs`: the C1 grammar as derivation trees.
- `src/completeness.rs`, `src/soundness.rs`: every program of the grammar is
  accepted, and what is accepted is a program of the grammar once the error
  tokens of the lexer are taken out (the parser skips those that stand in
  front of a function definition, a block or the end).
- `src/locality.rs`: a successful parse depends only on the kinds of the
  tokens it reads; from this, error tokens in front are skipped, a leading
  empty function definition changes nothing, and two accepted texts written
  one after the other are accepted.
- `src/text.rs`: building error messages.
