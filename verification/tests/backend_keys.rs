use chunkstore::store::fs_backend::{check_backend_key, is_chunk_digest};
use chunkstore::ChunkStoreError;

#[test]
fn rejects_traversal_keys() {
    assert!(check_backend_key("../escape").is_err());
}

#[test]
fn backend_key_rules() {
    assert!(check_backend_key("_manifest/doc").is_ok());
    assert!(check_backend_key("_refcount/__index__").is_ok());
    assert!(check_backend_key(&"a".repeat(64)).is_ok());
    assert!(check_backend_key("a/..b").is_ok());
    assert!(check_backend_key("./a").is_ok());
    for bad in ["", "/abs", "a\\b", "a/../b", "..", "a/.."] {
        assert!(
            matches!(check_backend_key(bad), Err(ChunkStoreError::InvalidArgument(_))),
            "{bad}"
        );
    }
}

#[test]
fn chunk_blob_names() {
    assert!(is_chunk_digest(&"0f".repeat(32)));
    assert!(is_chunk_digest(&"AB".repeat(32)));
    assert!(!is_chunk_digest(&"0f".repeat(31)));
    assert!(!is_chunk_digest(&format!("{}g", "0".repeat(63))));
    assert!(!is_chunk_digest("_manifest"));
}
