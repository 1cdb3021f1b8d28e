# json_array_search

Search over JSON documents in which the clauses of a query have to match in the same element
of an array, verified with Verus.

JSON documents are searched by paths and tokens. That two tokens stand in the same element of
an array is not to be seen from their paths, so the positions of a term are followed by the
array paths of each document. A conjunction of clauses then keeps the documents in which the
clauses have such a path in common. A clause that matches outside arrays restricts nothing.

- `src/json_path_writer.rs` writes the path to a value, and the arrays on the way to it.
- `src/vint.rs`, `src/block_decoder.rs`, `src/block_packing.rs` and `src/encoding.rs` are about
  the stored form of integers: how it is read, how it is written, and that the one undoes the
  other.
- `src/position_reader.rs` and `src/json_metadata.rs` read the positions of a term and the
  array paths behind them.
- `src/query/` holds queries, weights and scorers. `src/query/mod.rs` says what a scorer goes
  through, `src/query/boolean_query/` combines clauses, and `src/query/json_query.rs` asks
  clauses to agree on an array path.
- `app/` turns the plans of scores into floating-point scores and calls callbacks.
- `tests/` runs the library.

A scorer is described by a tree, which says which documents it goes through, and by the
documents that it still has. The contracts of the constructors say what the tree is, and those
of `seek` and `advance` which documents are left behind.
