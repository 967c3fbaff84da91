use chunkstore::{BlockSink, ChunkStore, MemoryBackend, Stats};

#[test]
fn read_to_writer_streams_chunks() {
    let mut store = ChunkStore::open(MemoryBackend::new()).unwrap();
    let chunk_size = 64usize;
    let payload = vec![0xABu8; chunk_size * 2 + 10];
    store.ingest_fixed("parts", &payload, chunk_size).unwrap();

    let mut streamed = Vec::new();
    store.read_to_writer("parts", &mut streamed).unwrap();
    assert_eq!(streamed, payload);
}

#[test]
fn ingest_and_read_roundtrip() {
    let mut store = ChunkStore::open(MemoryBackend::new()).unwrap();
    store.ingest("doc", b"hello world").unwrap();
    assert_eq!(store.read("doc").unwrap(), b"hello world");
}

#[test]
fn duplicate_file_dedups_chunks() {
    let mut store = ChunkStore::open(MemoryBackend::new()).unwrap();
    store.ingest("a", b"same").unwrap();
    store.ingest("b", b"same").unwrap();
    let stats = store.stats().unwrap();
    // Deduplication saved bytes (the savings percentage, computed in app/, is positive).
    assert!(stats.stored_bytes < stats.total_bytes);
    assert_eq!(stats, Stats { total_bytes: 8, stored_bytes: 4 });
}

#[test]
fn reingest_replaces_without_leaking_refcounts() {
    let mut store = ChunkStore::open(MemoryBackend::new()).unwrap();
    store.ingest("doc", b"old").unwrap();
    store.ingest("doc", b"new-longer").unwrap();
    assert_eq!(store.read("doc").unwrap(), b"new-longer");
    store.delete("doc").unwrap();
    assert!(store.read("doc").is_err());
}

#[test]
fn metadata_persists_across_reopen() {
    let mut backend = MemoryBackend::new();
    {
        let mut store = ChunkStore::open(&mut backend).unwrap();
        store.ingest("doc", b"persisted").unwrap();
    }
    {
        let store = ChunkStore::open(&mut backend).unwrap();
        assert_eq!(store.read("doc").unwrap(), b"persisted");
    }
}

#[test]
fn savings_for_half_dedup() {
    let mut s = Stats::default();
    s.add_unique_chunk(100);
    s.add_reference(100);
    // Half of the ingested bytes were saved (a savings percentage of 50, computed in app/).
    assert_eq!(s.stored_bytes * 2, s.total_bytes);
}

#[test]
fn read_to_writer_writes_one_block_per_chunk() {
    let mut store = ChunkStore::open(MemoryBackend::new()).unwrap();
    let payload = vec![0xABu8; 64 * 2 + 10];
    store.ingest_fixed("parts", &payload, 64).unwrap();
    let mut sink = BlockSink::new();
    store.read_to_writer("parts", &mut sink).unwrap();
    let blocks = sink.into_blocks();
    let sizes: Vec<usize> = blocks.iter().map(|b| b.len()).collect();
    assert_eq!(sizes, vec![64, 64, 10]);
    assert_eq!(blocks.concat(), payload);
}

#[test]
fn reopen_over_the_handed_back_backend() {
    let mut store = ChunkStore::open(MemoryBackend::new()).unwrap();
    store.ingest("doc", b"persisted").unwrap();
    let backend = store.into_backend();
    let store = ChunkStore::open(backend).unwrap();
    assert_eq!(store.read("doc").unwrap(), b"persisted");
    assert_eq!(store.stats().unwrap(), Stats { total_bytes: 9, stored_bytes: 9 });
}

#[test]
fn reingest_drops_the_old_count_and_bytes() {
    let mut store = ChunkStore::open(MemoryBackend::new()).unwrap();
    store.ingest_chunks("doc", &[b"old".to_vec()]).unwrap();
    let o = chunkstore::digest_hex(b"old");
    let n = chunkstore::digest_hex(b"new-longer");
    assert_eq!(store.ingest_chunks("doc", &[b"new-longer".to_vec()]).unwrap(), vec![n.clone()]);
    assert_eq!(store.chunk_refcount(&o).unwrap(), None);
    assert_eq!(store.chunk_refcount(&n).unwrap(), Some(1));
    assert_eq!(store.stats().unwrap(), Stats { total_bytes: 10, stored_bytes: 10 });
    assert_eq!(store.read("doc").unwrap(), b"new-longer");
}

#[test]
fn one_ingest_writes_five_keys() {
    let mut backend = MemoryBackend::new();
    {
        let mut store = ChunkStore::open(&mut backend).unwrap();
        store.ingest("doc", b"payload").unwrap();
    }
    // The chunk, its count, the file's record and the two index lists.
    assert_eq!(backend.key_count().unwrap(), 5);
}
