use vstd::prelude::*;

verus! {

/// The I/O error type of std, carried through unchanged by [`ChunkStoreError::IoError`].
#[verifier::external_type_specification]
#[verifier::external_body]
pub struct ExIoError(std::io::Error);

/// Errors returned by chunkstore core operations.
#[derive(Debug)]
pub enum ChunkStoreError {
    BackendError(String),
    DigestMismatch { expected: String, actual: String },
    NotFound(String),
    InvalidArgument(String),
    LockError,
    IoError(std::io::Error),
}

impl ChunkStoreError {
    pub fn backend(msg: String) -> (e: Self)
        ensures
            e matches ChunkStoreError::BackendError(m) && m@ == msg@,
    {
        ChunkStoreError::BackendError(msg)
    }

    pub fn not_found(msg: String) -> (e: Self)
        ensures
            e matches ChunkStoreError::NotFound(m) && m@ == msg@,
    {
        ChunkStoreError::NotFound(msg)
    }

    pub fn invalid_argument(msg: String) -> (e: Self)
        ensures
            e matches ChunkStoreError::InvalidArgument(m) && m@ == msg@,
    {
        ChunkStoreError::InvalidArgument(msg)
    }
}

} // verus!
