use chunkstore::hasher::{check_digest, encode};
use chunkstore::{digest_bytes, digest_hex, verify_digest, ChunkStoreError};

#[test]
fn digest_is_64_char_hex() {
    let d = digest_hex(b"hello");
    assert_eq!(d.len(), 64);
    assert!(d.chars().all(|c| c.is_ascii_hexdigit()));
}

#[test]
fn verify_accepts_matching_digest() {
    let d = digest_hex(b"chunk");
    assert!(verify_digest(b"chunk", &d).is_ok());
}

#[test]
fn verify_rejects_mismatch() {
    let err = verify_digest(b"wrong", "00".repeat(32).as_str()).unwrap_err();
    assert!(matches!(err, ChunkStoreError::DigestMismatch { .. }));
}

#[test]
fn digest_of_known_inputs() {
    assert_eq!(
        digest_hex(b""),
        "e3b0c44298fc1c149afbf4c8996fb92427ae41e4649b934ca495991b7852b855"
    );
    assert_eq!(
        digest_hex(b"hello"),
        "2cf24dba5fb0a30e26e83b2ac5b9e29e1b161e5c1fa7425e73043362938b9824"
    );
    let raw = digest_bytes(b"hello");
    assert_eq!(raw[0], 0x2c);
    assert_eq!(raw[31], 0x24);
    assert_eq!(encode(&raw), digest_hex(b"hello"));
}

#[test]
fn encode_is_lowercase_two_digits_per_byte() {
    assert_eq!(encode(&[]), "");
    assert_eq!(encode(&[0x00, 0x0f, 0xa0, 0xff]), "000fa0ff");
}

#[test]
fn mismatch_reports_both_digests() {
    let expected = "0".repeat(64);
    match verify_digest(b"data", &expected) {
        Err(ChunkStoreError::DigestMismatch { expected: e, actual }) => {
            assert_eq!(e, expected);
            assert_eq!(actual, digest_hex(b"data"));
        }
        other => panic!("unexpected {other:?}"),
    }
    assert!(check_digest(digest_hex(b"a"), &digest_hex(b"a")).is_ok());
}
