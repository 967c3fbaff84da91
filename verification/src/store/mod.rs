pub mod assoc;
pub mod backend;
pub mod chunk_store;
pub mod fs_backend;
pub mod manifest;
pub mod persistence;
pub mod refcount;
pub mod stats;

pub use backend::{ChunkBackend, MemoryBackend};
pub use chunk_store::{BlockSink, ByteSink, ChunkStore};
pub use manifest::Manifest;
pub use refcount::RefCount;
pub use stats::Stats;
