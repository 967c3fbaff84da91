use chunkstore::{ChunkStoreError, Manifest, RefCount, Stats};

#[test]
fn refcount_increment_then_decrement_restores() {
    let mut rc = RefCount::new();
    assert_eq!(rc.increment("d").unwrap(), 1);
    assert_eq!(rc.increment("d").unwrap(), 2);
    assert_eq!(rc.decrement("d").unwrap(), 1);
    assert_eq!(rc.get("d"), Some(1));
    assert_eq!(rc.decrement("d").unwrap(), 0);
    assert_eq!(rc.get("d"), None);
    assert!(rc.iter().is_empty());
    assert!(matches!(rc.decrement("d"), Err(ChunkStoreError::NotFound(_))));
}

#[test]
fn refcount_set_zero_removes() {
    let mut rc = RefCount::default();
    rc.set("a", 5);
    rc.set("b", 1);
    assert_eq!(rc.get("a"), Some(5));
    rc.set("a", 0);
    assert_eq!(rc.get("a"), None);
    assert_eq!(rc.iter(), vec![("b".to_string(), 1)]);
}

#[test]
fn manifest_insert_get_remove() {
    let mut m = Manifest::new();
    assert!(m.try_get("f").is_none());
    m.insert("f", vec!["x".to_string(), "y".to_string()], 7).unwrap();
    assert_eq!(m.get("f").unwrap(), &["x".to_string(), "y".to_string()][..]);
    m.insert("f", vec!["z".to_string()], 3).unwrap();
    assert_eq!(m.try_get("f").unwrap(), &["z".to_string()][..]);
    assert_eq!(m.remove("f").unwrap(), vec!["z".to_string()]);
    assert!(matches!(m.get("f"), Err(ChunkStoreError::NotFound(_))));
    assert!(matches!(m.remove("f"), Err(ChunkStoreError::NotFound(_))));
    assert!(matches!(m.insert("", vec![], 0), Err(ChunkStoreError::InvalidArgument(_))));
}

#[test]
fn stats_reference_round_trip() {
    let mut s = Stats { total_bytes: 10, stored_bytes: 4 };
    s.add_reference(6);
    assert_eq!(s, Stats { total_bytes: 16, stored_bytes: 4 });
    s.remove_reference(6);
    assert_eq!(s, Stats { total_bytes: 10, stored_bytes: 4 });
    s.add_unique_chunk(3);
    assert_eq!(s, Stats { total_bytes: 13, stored_bytes: 7 });
    s.remove_unique_chunk(3);
    s.remove_reference(3);
    assert_eq!(s, Stats { total_bytes: 10, stored_bytes: 4 });
    s.remove_reference(100);
    assert_eq!(s.total_bytes, 0);
}
