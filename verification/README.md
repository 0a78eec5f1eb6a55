# Byte parser combinators, verified

A small library of parser combinators over byte slices, with the basic rules of
the HTTP/1.1 grammar (RFC 2616, section 2.2) built from them. Every parser
states its outcome on every input as a specification (`Parser::spec_parse`),
and Verus proves each executable parser against it.

- `src/either.rs`: `Either`, a sum of two values, and `unify`.
- `src/parser.rs`: the `Parser` trait, the outcome model (`Outcome`), the
  combinators (`MatchParser`, `TermParser`, `CharParser`, `RangeParser`,
  `AndParser`, `OrParser`, `MapParser`, `SpanParser`), byte classes, mappers,
  and the laws they keep (every outcome leaves a suffix of the input; spans are
  greedy; a term parser finds exactly its term).
- `src/http.rs`: the grammar rules as functions returning parsers, with their
  outcomes stated directly over the input bytes, and round-trip laws for
  tokens, quoted pairs, quoted strings and linear white space.
- `src/http/primatives.rs`: the same rules as one parser type per rule.
- `app/main.rs`: the program: runs the `hello` parser and prints the outcome;
  printing and the TCP listener stay here.
