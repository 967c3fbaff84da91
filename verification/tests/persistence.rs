use chunkstore::{ChunkBackend, ChunkStore, ChunkStoreError, MemoryBackend};

#[test]
fn reopen_restores_files_counts_and_stats() {
    let mut backend = MemoryBackend::new();
    let (digests_a, digests_b, count, stats) = {
        let mut store = ChunkStore::open(&mut backend).unwrap();
        store.ingest_fixed("a", b"aaaabbbbcccc", 4).unwrap();
        store.ingest_fixed("b", b"aaaadddd", 4).unwrap();
        let a = store.file_digests("a").unwrap();
        let b = store.file_digests("b").unwrap();
        let count = store.chunk_refcount(&a[0]).unwrap();
        (a, b, count, store.stats().unwrap())
    };
    assert_eq!(count, Some(2));
    let mut store = ChunkStore::open(&mut backend).unwrap();
    assert_eq!(store.file_digests("a").unwrap(), digests_a);
    assert_eq!(store.file_digests("b").unwrap(), digests_b);
    assert_eq!(store.chunk_refcount(&digests_a[0]).unwrap(), Some(2));
    assert_eq!(store.chunk_refcount(&digests_a[1]).unwrap(), Some(1));
    assert_eq!(store.stats().unwrap(), stats);
    assert_eq!(store.read("a").unwrap(), b"aaaabbbbcccc");

    store.delete("a").unwrap();
    assert_eq!(store.chunk_refcount(&digests_a[0]).unwrap(), Some(1));
    assert_eq!(store.chunk_refcount(&digests_a[1]).unwrap(), None);
    assert_eq!(store.read("b").unwrap(), b"aaaadddd");
}

#[test]
fn reopen_after_delete_forgets_the_file() {
    let mut backend = MemoryBackend::new();
    {
        let mut store = ChunkStore::open(&mut backend).unwrap();
        store.ingest("keep", b"kept bytes").unwrap();
        store.ingest("drop", b"dropped bytes").unwrap();
        store.delete("drop").unwrap();
    }
    let store = ChunkStore::open(&mut backend).unwrap();
    assert!(matches!(store.read("drop"), Err(ChunkStoreError::NotFound(_))));
    assert_eq!(store.read("keep").unwrap(), b"kept bytes");
    let stats = store.stats().unwrap();
    assert_eq!(stats.total_bytes, 10);
    assert_eq!(stats.stored_bytes, 10);
}

#[test]
fn open_on_empty_backend_is_empty() {
    let store = ChunkStore::open(MemoryBackend::new()).unwrap();
    let stats = store.stats().unwrap();
    assert_eq!(stats.total_bytes, 0);
    assert_eq!(stats.stored_bytes, 0);
    assert!(matches!(store.read("missing"), Err(ChunkStoreError::NotFound(_))));
}

#[test]
fn metadata_keys_are_written_under_reserved_prefixes() {
    let mut backend = MemoryBackend::new();
    {
        let mut store = ChunkStore::open(&mut backend).unwrap();
        store.ingest("doc", b"x").unwrap();
    }
    let digest = chunkstore::digest_hex(b"x");
    assert!(backend.contains_key(&digest).unwrap());
    assert!(backend.contains_key("_manifest/doc").unwrap());
    assert!(backend.contains_key("_manifest/__index__").unwrap());
    assert!(backend.contains_key(&format!("_refcount/{digest}")).unwrap());
    assert!(backend.contains_key("_refcount/__index__").unwrap());
    assert_eq!(backend.key_count().unwrap(), 5);
}

#[test]
fn file_id_naming_the_index_fails_in_the_backend() {
    let mut store = ChunkStore::open(MemoryBackend::new()).unwrap();
    let r = store.ingest("__index__", b"payload");
    assert!(matches!(r, Err(ChunkStoreError::BackendError(_))));
}

#[test]
fn manifest_record_round_trips() {
    let digests = vec![chunkstore::digest_hex(b"a"), chunkstore::digest_hex(b"b")];
    let bytes = chunkstore::store::persistence::encode_manifest_record(&digests, 42).unwrap();
    let text = String::from_utf8(bytes.clone()).unwrap();
    assert_eq!(
        text,
        format!("{{\"digests\":[\"{}\",\"{}\"],\"file_bytes\":42}}", digests[0], digests[1])
    );
    let (back, n) = chunkstore::store::persistence::decode_manifest_record(&bytes).unwrap();
    assert_eq!(back, digests);
    assert_eq!(n, 42);
    assert!(chunkstore::store::persistence::decode_manifest_record(b"{\"digests\":[]}").is_err());
}

#[test]
fn counts_are_written_in_decimal() {
    assert_eq!(chunkstore::store::persistence::encode_u64(0), b"0");
    assert_eq!(chunkstore::store::persistence::encode_u64(1907), b"1907");
    assert_eq!(
        chunkstore::store::persistence::encode_u64(u64::MAX),
        u64::MAX.to_string().into_bytes()
    );
}

#[test]
fn reader_ingest_cuts_like_in_memory_ingest() {
    let data: Vec<u8> = (0..100_000u32).map(|i| (i % 251) as u8).collect();
    let mut store = ChunkStore::open(MemoryBackend::new()).unwrap();
    let from_slice = store.ingest_fixed("slice", &data, 1000).unwrap();
    let mut src: &[u8] = &data;
    let from_reader = store.ingest_reader_fixed("reader", &mut src, 1000).unwrap();
    assert_eq!(from_slice, from_reader);
    assert_eq!(from_reader.len(), 100);

    let cdc_slice = store.ingest_cdc("cdc-slice", &data).unwrap();
    let mut src: &[u8] = &data;
    let cdc_reader = store.ingest_reader_cdc("cdc-reader", &mut src).unwrap();
    assert_eq!(cdc_slice, cdc_reader);
    assert_eq!(store.read("cdc-reader").unwrap(), data);
}

#[test]
fn delete_undoes_ingest() {
    let mut backend = MemoryBackend::new();
    let mut store = ChunkStore::open(&mut backend).unwrap();
    store.ingest_fixed("base", b"0123456789abcdef", 4).unwrap();
    let base_digests = store.file_digests("base").unwrap();
    let stats_before = store.stats().unwrap();
    let counts_before: Vec<Option<u64>> = base_digests
        .iter()
        .map(|d| store.chunk_refcount(d).unwrap())
        .collect();

    let added = store.ingest_fixed("extra", b"0123xxxxabcd", 4).unwrap();
    assert_eq!(store.chunk_refcount(&added[0]).unwrap(), Some(2));
    store.delete("extra").unwrap();

    assert_eq!(store.stats().unwrap(), stats_before);
    let counts_after: Vec<Option<u64>> = base_digests
        .iter()
        .map(|d| store.chunk_refcount(d).unwrap())
        .collect();
    assert_eq!(counts_after, counts_before);
    assert_eq!(store.chunk_refcount(&added[1]).unwrap(), None);
    assert!(matches!(store.read("extra"), Err(ChunkStoreError::NotFound(_))));
    drop(store);
    assert!(!backend.contains_key(&added[1]).unwrap());
    assert!(backend.contains_key(&added[0]).unwrap());
}

#[test]
fn stored_bytes_never_exceed_total_bytes() {
    let mut store = ChunkStore::open(MemoryBackend::new()).unwrap();
    store.ingest_fixed("a", b"aaaaaaaa", 4).unwrap();
    store.ingest_fixed("b", b"aaaabbbb", 4).unwrap();
    let stats = store.stats().unwrap();
    assert_eq!(stats.total_bytes, 16);
    assert_eq!(stats.stored_bytes, 8);
    assert!(stats.stored_bytes <= stats.total_bytes);
}

#[test]
fn empty_file_id_is_rejected() {
    let mut store = ChunkStore::open(MemoryBackend::new()).unwrap();
    assert!(matches!(store.ingest("", b"x"), Err(ChunkStoreError::InvalidArgument(_))));
    assert!(matches!(store.read(""), Err(ChunkStoreError::NotFound(_))));
}

#[test]
fn read_chunk_reports_missing_and_tampered_blobs() {
    let mut backend = MemoryBackend::new();
    let good = chunkstore::digest_hex(b"good");
    let other = chunkstore::digest_hex(b"other");
    backend.put(&good, b"good").unwrap();
    backend.put(&other, b"not other").unwrap();
    let store = ChunkStore::open(&mut backend).unwrap();
    assert_eq!(store.read_chunk(&good).unwrap(), b"good");
    assert!(matches!(
        store.read_chunk(&chunkstore::digest_hex(b"absent")),
        Err(ChunkStoreError::NotFound(_))
    ));
    assert!(matches!(store.read_chunk(&other), Err(ChunkStoreError::DigestMismatch { .. })));
}

#[test]
fn saving_a_record_with_a_bad_digest_writes_nothing() {
    let mut backend = MemoryBackend::new();
    let digests = vec![chunkstore::digest_hex(b"a"), "not-a-digest".to_string()];
    let r = chunkstore::store::persistence::save_manifest(&mut backend, "f", &digests, 3);
    assert!(matches!(r, Err(ChunkStoreError::InvalidArgument(_))));
    assert_eq!(backend.key_count().unwrap(), 0);
    let ok = vec![chunkstore::digest_hex(b"a")];
    chunkstore::store::persistence::save_manifest(&mut backend, "f", &ok, 1).unwrap();
    assert_eq!(backend.key_count().unwrap(), 2);
}

#[test]
fn checked_ingest_matches_plain_ingest() {
    let mut a = MemoryBackend::new();
    let mut b = MemoryBackend::new();
    let mut plain = ChunkStore::open(&mut a).unwrap();
    let mut checked = ChunkStore::open(&mut b).unwrap();
    let data = b"abcdefghij-klmnop";
    let d1 = plain.ingest_fixed("f", data, 4).unwrap();
    let d2 = checked.try_ingest_fixed("f", data, 4).unwrap();
    assert_eq!(d1, d2);
    assert_eq!(checked.read("f").unwrap(), data.to_vec());
    assert_eq!(checked.stats().unwrap(), plain.stats().unwrap());
    let d3 = checked.try_ingest_cdc("g", data).unwrap();
    assert_eq!(d3, plain.ingest_cdc("g", data).unwrap());
    let mut src: &[u8] = data;
    let d4 = checked.try_ingest_reader_fixed("h", &mut src, 4).unwrap();
    assert_eq!(d4, d1);
    assert!(matches!(
        checked.try_ingest_chunks("", &[b"x".to_vec()]),
        Err(ChunkStoreError::InvalidArgument(_))
    ));
}

#[test]
fn a_file_without_chunks_reads_back_empty() {
    let mut backend = MemoryBackend::new();
    let mut store = ChunkStore::open(&mut backend).unwrap();
    assert_eq!(store.ingest("empty", b"").unwrap(), Vec::<String>::new());
    assert_eq!(store.read("empty").unwrap(), Vec::<u8>::new());
    store.delete("empty").unwrap();
    assert!(matches!(store.read("empty"), Err(ChunkStoreError::NotFound(_))));
}
