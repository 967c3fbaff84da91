# chunkstore

Content-addressed chunk storage: files are cut into chunks (fixed-size or
content-defined with FastCDC), each chunk is stored once under the lowercase hex
SHA-256 of its bytes, files are manifests of chunk digests, and reference counts
decide when a chunk is garbage-collected. The manifest and the counts are kept as
JSON under reserved keys of the backend, so a store opened again over the same
backend finds its files.

The library in `src/` is written in Verus and verified:

- `hasher` — digests (SHA-256 through the `sha2` crate, hex encoding proved).
- `chunker` — the fixed-size and FastCDC chunkers; every chunker emits its input
  laid end to end, cut the same way however the input is fed.
- `store` — the backend trait and the in-memory backend, the manifest and the
  reference counts, the statistics, the persistence of metadata, the key rules of
  the filesystem backend, and the store itself. The store's contracts state what
  ingest, read and delete do to files, counts, statistics and stored chunks; proof
  functions state that a reopened store restores what a durable one wrote, and
  that deleting a file undoes ingesting it.

`app/` holds what stays outside the verified library: the filesystem backend, the
adapters between `std::io` and the library's byte sources and sinks, a store
shared between threads behind a lock, error and statistics types with the traits
of `thiserror` and `serde`, the C API, and the Python extension module (`pyo3`).

`tests/` exercises the library through its public interface.
