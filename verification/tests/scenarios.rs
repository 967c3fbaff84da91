use chunkstore::{ChunkBackend, ChunkStore, MemoryBackend, Stats};

fn memory_store() -> ChunkStore<MemoryBackend> {
    ChunkStore::open(MemoryBackend::new()).expect("open store")
}

/// The bytes deduplication saved, times 100, beside the bytes ingested: a saving
/// of at least `p` percent is `saved_x100 >= p * total`.
fn dedup_saved_x100<B: ChunkBackend>(store: &ChunkStore<B>) -> (u128, u128) {
    let s: Stats = store.stats().expect("stats");
    ((s.total_bytes - s.stored_bytes) as u128 * 100, s.total_bytes as u128)
}

fn make_20mb_with_prefix_insert() -> (Vec<u8>, Vec<u8>) {
    let size = 20 * 1024 * 1024;
    let base: Vec<u8> = (0..size)
        .map(|i: usize| {
            let x = i.wrapping_mul(0x9E37_79B9);
            ((x >> 24) ^ (x >> 16) ^ (x >> 8)) as u8
        })
        .collect();
    let mut edited = Vec::with_capacity(base.len() + 1);
    edited.push(0xAB);
    edited.extend_from_slice(&base);
    (base, edited)
}

fn make_shared_block_files(block_size: usize) -> (Vec<u8>, Vec<u8>) {
    let shared = vec![0xBBu8; block_size];
    let mut a = shared.clone();
    a.extend_from_slice(b"tail-a");
    let mut b = shared.clone();
    b.extend_from_slice(b"tail-b-longer");
    (a, b)
}

#[test]
fn scenario_01_unique_file_download() {
    let mut store = memory_store();
    let digests = store.ingest("doc", b"unique-payload").unwrap();
    assert_eq!(digests.len(), 1);
    assert_eq!(store.chunk_refcount(&digests[0]).unwrap(), Some(1));
    assert_eq!(store.read("doc").unwrap(), b"unique-payload");
}

#[test]
fn scenario_02_duplicate_file_dedups() {
    let mut store = memory_store();
    store.ingest("a", b"same-payload").unwrap();
    store.ingest("b", b"same-payload").unwrap();
    let stats = store.stats().unwrap();
    assert!(stats.stored_bytes < stats.total_bytes);
    assert_eq!(stats.stored_bytes * 2, stats.total_bytes);
}

#[test]
fn scenario_03_partial_overlap_reuses_prefix() {
    let mut store = memory_store();
    let chunk_size = 64;
    let prefix = vec![1u8; chunk_size * 2];
    let mut file_a = prefix.clone();
    file_a.extend_from_slice(b"AAA");
    let mut file_b = prefix.clone();
    file_b.extend_from_slice(b"BBBBB");

    let da = store.ingest_fixed("a", &file_a, chunk_size).unwrap();
    let db = store.ingest_fixed("b", &file_b, chunk_size).unwrap();

    assert_eq!(&da[0..2], &db[0..2]);
    assert_ne!(da[2], db[2]);
}

#[test]
fn scenario_04_delete_one_of_two_keeps_shared_chunk() {
    let mut store = memory_store();
    store.ingest("a", b"shared-prefix").unwrap();
    let digests_b = store.ingest("b", b"shared-prefix").unwrap();
    let shared = digests_b[0].clone();

    store.delete("a").unwrap();
    assert_eq!(store.chunk_refcount(&shared).unwrap(), Some(1));
    assert!(store.read("b").unwrap() == b"shared-prefix");
}

#[test]
fn scenario_05_delete_last_file_gcs_chunk() {
    let mut backend = MemoryBackend::new();
    let digest = {
        let mut store = ChunkStore::open(&mut backend).unwrap();
        let digests = store.ingest("only", b"gc-me").unwrap();
        store.delete("only").unwrap();
        digests[0].clone()
    };
    assert!(!backend.contains_key(&digest).unwrap());
}

#[test]
fn scenario_07_streaming_upload_from_reader() {
    let mut store = memory_store();
    let data = vec![5u8; 256 * 1024 + 17];
    let mut reader: &[u8] = &data;
    let digests = store.ingest_reader_fixed("streamed", &mut reader, 64 * 1024).unwrap();
    assert!(!digests.is_empty());
    assert_eq!(store.read("streamed").unwrap(), data);
}

#[test]
fn scenario_08_cdc_beats_fixed_on_prefix_insert() {
    let mut fixed_store = memory_store();
    let (base, edited) = make_20mb_with_prefix_insert();

    fixed_store.ingest("base", &base).unwrap();
    fixed_store.ingest("edited", &edited).unwrap();
    let (fixed_saved, fixed_total) = dedup_saved_x100(&fixed_store);

    let mut cdc_store = memory_store();
    cdc_store.ingest_cdc("base", &base).unwrap();
    cdc_store.ingest_cdc("edited", &edited).unwrap();
    let (cdc_saved, cdc_total) = dedup_saved_x100(&cdc_store);

    assert!(fixed_saved < 5 * fixed_total, "fixed saved x100={fixed_saved} of {fixed_total}");
    assert!(cdc_saved > 30 * cdc_total, "cdc saved x100={cdc_saved} of {cdc_total}");
}

#[test]
fn scenario_09_shared_binary_block_savings() {
    let mut store = memory_store();
    let (a, b) = make_shared_block_files(4 * 1024 * 1024);
    store.ingest("a", &a).unwrap();
    store.ingest("b", &b).unwrap();
    let (saved, total) = dedup_saved_x100(&store);
    assert!(saved >= 40 * total, "saved x100={saved} of {total}");
}
