# Quiver

An embedded vector database: vectors with key-value metadata in a file, a
write-ahead log, exact and approximate nearest-neighbor search, and search under
a metadata filter.

- `src/` is the library. Its functions carry contracts that Verus proves:
  the file, log and snapshot formats and their recovery (`storage`), the indexes
  (`index`), metadata and filters (`metadata`, `metadata_encoding`), scalar
  quantization (`quantization`), and the requests of the service (`service`).
  What survives a crash is stated in `storage/durability.rs`,
  `storage/compaction.rs` and, for a whole history of a store,
  `storage/history.rs`; what a search returns, in `index/guarantees.rs`,
  `index/agreement.rs`, `index/small.rs`, `index/structure.rs` and
  `index/exact.rs`.
- `tests/` runs the library on concrete values.
- `app/` is the program around it: files, the HTTP server, the Python module, the
  benchmarks, and the floating-point arithmetic.

Components of vectors and distances are bit patterns of IEEE 754 numbers in the
library, which compares them; the arithmetic on them is a function that the
caller hands in. So are the random numbers of layers that new nodes get.
