use chunkstore::{CdcChunker, CdcConfig, Chunker, ChunkStoreError};

#[test]
fn cdc_config_default_values() {
    let c = CdcConfig::default();
    assert_eq!(c.min_size, 256 * 1024);
    assert_eq!(c.avg_size, 4 * 1024 * 1024);
    assert_eq!(c.max_size, 8 * 1024 * 1024);
    assert_eq!(c.window_size, 64);
}

#[test]
fn cdc_chunker_rejects_zero_window() {
    let config = CdcConfig { window_size: 0, ..CdcConfig::default() };
    assert!(matches!(CdcChunker::new(config), Err(ChunkStoreError::InvalidArgument(_))));
}

#[test]
fn cdc_chunker_rejects_unordered_sizes_on_finish() {
    let config = CdcConfig { min_size: 4096, avg_size: 1024, max_size: 8192, window_size: 64 };
    let mut chunker = CdcChunker::new(config).unwrap();
    assert!(chunker.feed(b"some bytes").unwrap().is_empty());
    assert!(matches!(chunker.finish(), Err(ChunkStoreError::InvalidArgument(_))));

    let config = CdcConfig { min_size: 0, avg_size: 1024, max_size: 8192, window_size: 64 };
    let mut chunker = CdcChunker::new(config).unwrap();
    chunker.feed(b"x").unwrap();
    assert!(matches!(chunker.finish(), Err(ChunkStoreError::InvalidArgument(_))));

    let config = CdcConfig { min_size: 1024, avg_size: 4096, max_size: 2048, window_size: 64 };
    let mut chunker = CdcChunker::new(config).unwrap();
    chunker.feed(b"x").unwrap();
    assert!(matches!(chunker.finish(), Err(ChunkStoreError::InvalidArgument(_))));
}

#[test]
fn cdc_chunker_buffers_until_finish() {
    let mut chunker = CdcChunker::with_defaults().unwrap();
    let data = vec![9u8; 700 * 1024];
    assert!(chunker.feed(&data[..100]).unwrap().is_empty());
    assert!(chunker.feed(&data[100..]).unwrap().is_empty());
    let chunks = chunker.finish().unwrap();
    assert_eq!(chunks.concat(), data);
    assert!(chunker.finish().unwrap().is_empty());
}
