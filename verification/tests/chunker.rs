use chunkstore::{chunk_cdc, chunk_reader, Chunker, FixedChunker};

fn prefix_insert_payload() -> (Vec<u8>, Vec<u8>) {
    let size = 20 * 1024 * 1024;
    let base: Vec<u8> = (0..size)
        .map(|i: usize| {
            let x = i.wrapping_mul(0x9E37_79B9);
            ((x >> 24) ^ (x >> 16) ^ (x >> 8)) as u8
        })
        .collect();
    let mut edited = vec![0xAB];
    edited.extend_from_slice(&base);
    (base, edited)
}

fn shared_chunk_count(a: &[Vec<u8>], b: &[Vec<u8>]) -> usize {
    a.iter()
        .filter(|chunk| b.iter().any(|c| c.as_slice() == chunk.as_slice()))
        .count()
}

#[test]
fn cdc_emits_non_empty_chunks() {
    let data = vec![0u8; 512 * 1024];
    let chunks = chunk_cdc(&data).unwrap();
    assert!(!chunks.is_empty());
}

#[test]
fn cdc_chunks_are_non_empty() {
    let data = vec![42u8; 3 * 1024 * 1024];
    let chunks = chunk_cdc(&data).unwrap();
    assert!(!chunks.is_empty());
    assert!(chunks.iter().all(|c| !c.is_empty()));
}

#[test]
fn cdc_shared_chunks_with_prefix_insert() {
    let (base, edited) = prefix_insert_payload();
    let base_chunks = chunk_cdc(&base).unwrap();
    let edited_chunks = chunk_cdc(&edited).unwrap();
    let shared = shared_chunk_count(&base_chunks, &edited_chunks);

    assert!(
        shared > base_chunks.len() / 2,
        "shared={shared} of {}",
        base_chunks.len()
    );
}

#[test]
fn cdc_prefix_insert_savings_beat_fixed() {
    let (base, edited) = prefix_insert_payload();

    let mut fixed = FixedChunker::new(4 * 1024 * 1024);
    let fa = {
        let mut c = fixed.feed(&base).unwrap();
        c.extend(fixed.finish().unwrap());
        c
    };
    let mut fixed2 = FixedChunker::new(4 * 1024 * 1024);
    let fb = {
        let mut c = fixed2.feed(&edited).unwrap();
        c.extend(fixed2.finish().unwrap());
        c
    };
    let fixed_shared = fa.iter().filter(|c| fb.iter().any(|x| x == *c)).count();

    let ba = chunk_cdc(&base).unwrap();
    let bb = chunk_cdc(&edited).unwrap();
    let cdc_shared = shared_chunk_count(&ba, &bb);

    assert!(fixed_shared <= 1, "fixed_shared={fixed_shared}");
    assert!(cdc_shared > fixed_shared, "cdc_shared={cdc_shared}");
}

#[test]
fn exact_multiple_emits_all_chunks_on_feed() {
    let mut c = FixedChunker::new(3);
    let chunks = c.feed(b"abcdef").unwrap();
    assert_eq!(chunks, vec![b"abc", b"def"]);
    assert!(c.finish().unwrap().is_empty());
}

#[test]
fn fixed_chunks_entire_buffer() {
    let mut chunker = FixedChunker::new(4);
    let chunks = chunker.feed(b"abcdefghij").unwrap();
    assert_eq!(chunks.len(), 2);
    assert_eq!(chunks[0], b"abcd");
    assert_eq!(chunks[1], b"efgh");
    let tail = chunker.finish().unwrap();
    assert_eq!(tail, vec![b"ij".to_vec()]);
}

#[test]
fn fixed_chunker_keeps_bytes_across_feeds() {
    let mut chunker = FixedChunker::new(4);
    let mut out = chunker.feed(b"ab").unwrap();
    assert!(out.is_empty());
    out.extend(chunker.feed(b"cdefg").unwrap());
    out.extend(chunker.feed(b"").unwrap());
    out.extend(chunker.finish().unwrap());
    assert_eq!(out, vec![b"abcd".to_vec(), b"efg".to_vec()]);
    assert_eq!(out.concat(), b"abcdefg".to_vec());
}

#[test]
fn fixed_chunker_finish_without_input_is_empty() {
    let mut chunker = FixedChunker::new(8);
    assert!(chunker.finish().unwrap().is_empty());
    assert_eq!(FixedChunker::default_chunk_size(), 4 * 1024 * 1024);
}

#[test]
fn chunk_reader_concatenates_to_the_source() {
    let data: Vec<u8> = (0..200_000u32).map(|i| (i % 251) as u8).collect();
    let mut source: &[u8] = &data;
    let mut chunker = FixedChunker::new(70_000);
    let chunks = chunk_reader(&mut source, &mut chunker).unwrap();
    assert_eq!(chunks.len(), 3);
    assert_eq!(chunks[0].len(), 70_000);
    assert_eq!(chunks[2].len(), 60_000);
    assert_eq!(chunks.concat(), data);
    assert!(source.is_empty());
}

#[test]
fn cdc_chunks_concatenate_to_input_and_respect_max() {
    let data: Vec<u8> = (0..9 * 1024 * 1024usize)
        .map(|i| (i.wrapping_mul(2654435761) >> 13) as u8)
        .collect();
    let chunks = chunk_cdc(&data).unwrap();
    assert_eq!(chunks.concat(), data);
    assert!(chunks.iter().all(|c| !c.is_empty() && c.len() <= 8 * 1024 * 1024));
    assert!(chunk_cdc(&[]).unwrap().is_empty());
}
