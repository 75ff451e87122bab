# lykiadb

A verified front end for Lykia's scripting and query language, a mix of a
JavaScript-like script and SQL, written in Verus.

## Layout

- `src/tokens.rs`: tokens, keywords, symbols and spans.
- `src/scanner.rs`: the scanner, with `spec_scan`, the specification of the
  token stream that a source text gives.
- `src/ast/`: the node types and the arena that holds them; every node refers
  only to nodes allocated before it. `ast/tree.rs` reads the tree that a node
  stands for, children in place of indices. `ast/resolver.rs` resolves the
  scope distance of each variable use against `visit_stmt_spec`.
- `src/parser/`: the recursive descent parser. `grammar.rs` states the grammar
  as functions over token types that say where each rule ends or which error it
  meets and which tree it builds; `unfold.rs` holds one unfolding lemma per
  rule; the parser's functions are proved to end where the grammar ends, to
  fail exactly where it fails and to build the tree that it builds.
- `src/environment.rs`: the frames that hold variable values at run time.
- `src/fxmap.rs`: the `rustc-hash` maps the resolver and the program use.
- `app/`: a command line program that scans, parses and resolves a script and
  prints its tree as JSON.
- `tests/`: the tests.

## What stands apart

- Run-time values (numbers, strings, arrays, objects, documents and the
  operations on them) are not part of this library: each of them carries a
  floating-point number or a BSON document, which its proofs cannot hold. The
  frames of `src/environment.rs` are generic over the value they hold for that
  reason.
- Number literals keep their source text; turning it into a number is left to
  whoever evaluates the program (`app/` does so when it prints JSON). Number
  keys of an object literal are therefore kept apart from name and string keys
  by their text.
- A frame owns the frame it was opened in, so two frames cannot share one
  outer frame: frames shared behind a lock have no verified form here.
