//! Content-addressed chunk storage core.
//!
//! Files are split into chunks, each addressed by its full SHA-256 digest
//! (64 lowercase hex characters). Identical bytes share one stored chunk,
//! with reference counting and garbage collection on delete.
pub mod chunker;
pub mod error;
pub mod hasher;
pub mod store;

pub use chunker::{chunk_cdc, chunk_reader, ByteSource, CdcChunker, CdcConfig, Chunker, FixedChunker};
pub use error::ChunkStoreError;
pub use hasher::{digest_bytes, digest_hex, verify_digest};
pub use store::{BlockSink, ByteSink, ChunkBackend, ChunkStore, Manifest, MemoryBackend, RefCount, Stats};
