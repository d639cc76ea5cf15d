# blockfile

A verified key/value file kept as sorted blocks under a sparse index, written in Verus.

- `src/` is the library. `blockfile.rs` has the writer and the reader; `model.rs` says what they do
  to a blockfile, and `laws.rs` and `bookkeeping.rs` what holds of it across operations. The parts
  below are the sparse
  index (`sparse_index.rs`), blocks and deltas (`block.rs`), their sizes (`size.rs`), keys and
  values (`key.rs`, `value.rs`, `order.rs`), and the managers of what is committed (`provider.rs`,
  `flusher.rs`).
- `tests/` runs the library.
- `app/` has handles for tasks that share a blockfile and load its blocks on demand.
