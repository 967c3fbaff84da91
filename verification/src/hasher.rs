use vstd::prelude::*;
use sha2::Digest;
use vstd::string::StringExecFns;

use crate::error::ChunkStoreError;

verus! {

/// The SHA-256 round constants (FIPS 180-4, section 4.2.2).
#[verifier::opaque]
pub open spec fn sha256_k() -> Seq<u32> {
    seq![
        0x428a2f98u32, 0x71374491, 0xb5c0fbcf, 0xe9b5dba5,
        0x3956c25b, 0x59f111f1, 0x923f82a4, 0xab1c5ed5,
        0xd807aa98, 0x12835b01, 0x243185be, 0x550c7dc3,
        0x72be5d74, 0x80deb1fe, 0x9bdc06a7, 0xc19bf174,
        0xe49b69c1, 0xefbe4786, 0x0fc19dc6, 0x240ca1cc,
        0x2de92c6f, 0x4a7484aa, 0x5cb0a9dc, 0x76f988da,
        0x983e5152, 0xa831c66d, 0xb00327c8, 0xbf597fc7,
        0xc6e00bf3, 0xd5a79147, 0x06ca6351, 0x14292967,
        0x27b70a85, 0x2e1b2138, 0x4d2c6dfc, 0x53380d13,
        0x650a7354, 0x766a0abb, 0x81c2c92e, 0x92722c85,
        0xa2bfe8a1, 0xa81a664b, 0xc24b8b70, 0xc76c51a3,
        0xd192e819, 0xd6990624, 0xf40e3585, 0x106aa070,
        0x19a4c116, 0x1e376c08, 0x2748774c, 0x34b0bcb5,
        0x391c0cb3, 0x4ed8aa4a, 0x5b9cca4f, 0x682e6ff3,
        0x748f82ee, 0x78a5636f, 0x84c87814, 0x8cc70208,
        0x90befffa, 0xa4506ceb, 0xbef9a3f7, 0xc67178f2,
    ]
}

/// The SHA-256 initial hash value (FIPS 180-4, section 5.3.3).
pub open spec fn sha256_h0() -> Seq<u32> {
    seq![0x6a09e667u32, 0xbb67ae85, 0x3c6ef372, 0xa54ff53a, 0x510e527f, 0x9b05688c, 0x1f83d9ab, 0x5be0cd19]
}

/// `256` to the power `k`.
pub open spec fn pow256(k: nat) -> nat
    decreases k,
{
    if k == 0 {
        1
    } else {
        256 * pow256((k - 1) as nat)
    }
}

/// Addition modulo 2^32.
pub open spec fn add32(x: u32, y: u32) -> u32 {
    ((x + y) % 0x1_0000_0000) as u32
}

/// Rotation right by `n` bits, `0 < n < 32`.
pub open spec fn rotr(x: u32, n: u32) -> u32 {
    (x >> n) | (x << ((32 - n) as u32))
}

pub open spec fn big_sigma0(x: u32) -> u32 {
    rotr(x, 2) ^ rotr(x, 13) ^ rotr(x, 22)
}

pub open spec fn big_sigma1(x: u32) -> u32 {
    rotr(x, 6) ^ rotr(x, 11) ^ rotr(x, 25)
}

pub open spec fn small_sigma0(x: u32) -> u32 {
    rotr(x, 7) ^ rotr(x, 18) ^ (x >> 3u32)
}

pub open spec fn small_sigma1(x: u32) -> u32 {
    rotr(x, 17) ^ rotr(x, 19) ^ (x >> 10u32)
}

pub open spec fn sha_ch(e: u32, f: u32, g: u32) -> u32 {
    (e & f) ^ (!e & g)
}

pub open spec fn sha_maj(a: u32, b: u32, c: u32) -> u32 {
    (a & b) ^ (a & c) ^ (b & c)
}

/// `n` as eight bytes, most significant first.
pub open spec fn be64(n: nat) -> Seq<u8> {
    Seq::new(8, |i: int| ((n / pow256((7 - i) as nat)) % 256) as u8)
}

/// The tail that pads the last bytes `m` of a message of `total` bytes: a 1 bit,
/// zeros up to 56 bytes past a block boundary, and the message length in bits
/// (FIPS 180-4, section 5.1.1).
pub open spec fn sha256_pad_len(m: Seq<u8>, total: nat) -> Seq<u8> {
    m + seq![0x80u8] + Seq::new(((119 - (total % 64) as int) % 64) as nat, |i: int| 0u8) + be64(
        (8 * total) % 0x1_0000_0000_0000_0000,
    )
}

/// The padded message.
pub open spec fn sha256_pad(m: Seq<u8>) -> Seq<u8> {
    sha256_pad_len(m, m.len())
}

/// Word `j` of a block, big-endian.
pub open spec fn block_word(b: Seq<u8>, j: int) -> u32 {
    ((b[4 * j] as nat) * pow256(3) + (b[4 * j + 1] as nat) * pow256(2) + (b[4 * j + 2] as nat) * 256 + (b[4 * j + 3] as nat)) as u32
}

/// The first `t` words of the message schedule of a block (FIPS 180-4, 6.2.2 step 1).
pub open spec fn sha256_schedule(b: Seq<u8>, t: nat) -> Seq<u32>
    decreases t,
{
    if t == 0 {
        Seq::empty()
    } else {
        let w = sha256_schedule(b, (t - 1) as nat);
        let i = t - 1;
        w.push(
            if i < 16 {
                block_word(b, i)
            } else {
                add32(
                    add32(add32(small_sigma1(w[i - 2]), w[i - 7]), small_sigma0(w[i - 15])),
                    w[i - 16],
                )
            },
        )
    }
}

/// The working variables after rounds `t..64` of the compression (FIPS 180-4, 6.2.2 step 3).
pub open spec fn sha256_rounds(st: Seq<u32>, w: Seq<u32>, t: nat) -> Seq<u32>
    decreases 64 - t,
{
    if t >= 64 {
        st
    } else {
        let t1 = add32(
            add32(add32(add32(st[7], big_sigma1(st[4])), sha_ch(st[4], st[5], st[6])), sha256_k()[t as int]),
            w[t as int],
        );
        let t2 = add32(big_sigma0(st[0]), sha_maj(st[0], st[1], st[2]));
        sha256_rounds(seq![add32(t1, t2), st[0], st[1], st[2], add32(st[3], t1), st[4], st[5], st[6]], w, t + 1)
    }
}

/// The hash value after one 64-byte block.
pub open spec fn sha256_compress(h: Seq<u32>, b: Seq<u8>) -> Seq<u32> {
    let st = sha256_rounds(h, sha256_schedule(b, 64), 0);
    Seq::new(8, |i: int| add32(h[i], st[i]))
}

/// The hash value after every whole 64-byte block of `m`, starting from `h`.
pub open spec fn sha256_chain(h: Seq<u32>, m: Seq<u8>) -> Seq<u32>
    decreases m.len(),
{
    if m.len() < 64 {
        h
    } else {
        sha256_chain(sha256_compress(h, m.take(64)), m.skip(64))
    }
}

/// A hash value as 32 bytes, each word most significant byte first.
pub open spec fn sha256_bytes(h: Seq<u32>) -> Seq<u8> {
    Seq::new(32, |i: int| (((h[i / 4] as nat) / pow256((3 - i % 4) as nat)) % 256) as u8)
}

/// The SHA-256 digest of a byte sequence (FIPS 180-4): the hash value after
/// every block of the padded message, starting from the initial value.
pub open spec fn sha256(data: Seq<u8>) -> Seq<u8> {
    sha256_bytes(sha256_chain(sha256_h0(), sha256_pad(data)))
}

/// The padded message holds every byte of the input, in place, then the 1 bit,
/// then the input's length in bits, and fills a whole number of blocks.
pub proof fn lemma_sha256_pad_shape(data: Seq<u8>)
    ensures
        sha256_pad(data).len() % 64 == 0,
        data.len() + 9 <= sha256_pad(data).len() <= data.len() + 72,
        forall|i: int| 0 <= i < data.len() ==> #[trigger] sha256_pad(data)[i] == data[i],
        sha256_pad(data)[data.len() as int] == 0x80u8,
        sha256_pad(data).subrange(sha256_pad(data).len() - 8, sha256_pad(data).len() as int) == be64(
            (8 * data.len()) % 0x1_0000_0000_0000_0000,
        ),
{
    let p = sha256_pad(data);
    let k = ((119 - (data.len() % 64) as int) % 64) as nat;
    assert(p.len() == data.len() + 1 + k + 8);
    assert(p.subrange(p.len() - 8, p.len() as int) =~= be64((8 * data.len()) % 0x1_0000_0000_0000_0000));
}

/// Hashing a message runs block by block: after a whole number of blocks `x`,
/// the hash of the rest continues from the state that `x` leaves.
pub proof fn lemma_sha256_chain_append(h: Seq<u32>, x: Seq<u8>, y: Seq<u8>)
    requires
        x.len() % 64 == 0,
    ensures
        sha256_chain(h, x + y) == sha256_chain(sha256_chain(h, x), y),
    decreases x.len(),
{
    if x.len() == 0 {
        assert(x + y =~= y);
    } else {
        assert((x + y).take(64) =~= x.take(64));
        assert((x + y).skip(64) =~= x.skip(64) + y);
        lemma_sha256_chain_append(sha256_compress(h, x.take(64)), x.skip(64), y);
    }
}

/// Every byte of the input goes into the digest: for any input `a + b` whose
/// first part is a whole number of blocks, the digest is the hash of `b`, padded
/// with the length of the whole input, continued from the state that `a`
/// leaves. So the bytes of `b`, at any distance from the start, are hashed.
pub proof fn lemma_sha256_continues(a: Seq<u8>, b: Seq<u8>)
    requires
        a.len() % 64 == 0,
    ensures
        sha256(a + b) == sha256_bytes(
            sha256_chain(sha256_chain(sha256_h0(), a), sha256_pad_len(b, a.len() + b.len())),
        ),
{
    assert(sha256_pad(a + b) =~= a + sha256_pad_len(b, a.len() + b.len()));
    lemma_sha256_chain_append(sha256_h0(), a, sha256_pad_len(b, a.len() + b.len()));
}

/// The sixteen lowercase hexadecimal digits, in order.
pub open spec fn hex_alphabet() -> Seq<char> {
    seq!['0', '1', '2', '3', '4', '5', '6', '7', '8', '9', 'a', 'b', 'c', 'd', 'e', 'f']
}

/// The lowercase hex digit for a value below 16.
pub open spec fn hex_char(nibble: u8) -> char {
    hex_alphabet()[nibble as int]
}

/// Lowercase hex encoding: two digits per byte, high nibble first.
pub open spec fn hex_encode(bytes: Seq<u8>) -> Seq<char>
    decreases bytes.len(),
{
    if bytes.len() == 0 {
        Seq::empty()
    } else {
        hex_encode(bytes.drop_last()) + seq![
            hex_char(bytes.last() / 16),
            hex_char(bytes.last() % 16),
        ]
    }
}

/// 64 lowercase hex digits: the form of every content address.
pub open spec fn is_lower_digest(s: Seq<char>) -> bool {
    s.len() == 64 && forall|i: int| 0 <= i < s.len() ==> hex_alphabet().contains(#[trigger] s[i])
}

/// Every character of a hex encoding is a lowercase hex digit.
pub proof fn lemma_hex_encode_digits(bytes: Seq<u8>)
    ensures
        hex_encode(bytes).len() == 2 * bytes.len(),
        forall|i: int| 0 <= i < hex_encode(bytes).len() ==> hex_alphabet().contains(
            #[trigger] hex_encode(bytes)[i],
        ),
    decreases bytes.len(),
{
    if bytes.len() > 0 {
        lemma_hex_encode_digits(bytes.drop_last());
        let prev = hex_encode(bytes.drop_last());
        let hi = hex_char(bytes.last() / 16);
        let lo = hex_char(bytes.last() % 16);
        assert(hex_alphabet()[(bytes.last() / 16) as int] == hi);
        assert(hex_alphabet()[(bytes.last() % 16) as int] == lo);
        assert forall|i: int| 0 <= i < hex_encode(bytes).len() implies hex_alphabet().contains(
            #[trigger] hex_encode(bytes)[i],
        ) by {
            if i < prev.len() {
                assert(hex_encode(bytes)[i] == prev[i]);
            } else if i == prev.len() {
                assert(hex_encode(bytes)[i] == hi);
            } else {
                assert(hex_encode(bytes)[i] == lo);
            }
        }
    }
}

/// The content address of `data`: the lowercase hex form of its SHA-256 digest.
pub open spec fn digest_of(data: Seq<u8>) -> Seq<char> {
    hex_encode(sha256(data))
}

/// Calls `Sha256::digest` of the `sha2` crate. The contract claims that the
/// result is the SHA-256 digest of the whole input as FIPS 180-4 defines it
/// ([`sha256`]); the digest has 32 bytes by the type of the result.
#[verifier::external_body]
fn sha256_digest(data: &[u8]) -> (res: [u8; 32])
    ensures
        res@ == sha256(data@),
{
    sha2::Sha256::digest(data).into()
}

/// One lowercase hex digit as a string.
fn hex_digit(nibble: u8) -> (s: &'static str)
    requires
        nibble < 16,
    ensures
        s@ == seq![hex_char(nibble)],
{
    match nibble {
        0 => { proof { reveal_strlit("0"); } "0" },
        1 => { proof { reveal_strlit("1"); } "1" },
        2 => { proof { reveal_strlit("2"); } "2" },
        3 => { proof { reveal_strlit("3"); } "3" },
        4 => { proof { reveal_strlit("4"); } "4" },
        5 => { proof { reveal_strlit("5"); } "5" },
        6 => { proof { reveal_strlit("6"); } "6" },
        7 => { proof { reveal_strlit("7"); } "7" },
        8 => { proof { reveal_strlit("8"); } "8" },
        9 => { proof { reveal_strlit("9"); } "9" },
        10 => { proof { reveal_strlit("a"); } "a" },
        11 => { proof { reveal_strlit("b"); } "b" },
        12 => { proof { reveal_strlit("c"); } "c" },
        13 => { proof { reveal_strlit("d"); } "d" },
        14 => { proof { reveal_strlit("e"); } "e" },
        _ => { proof { reveal_strlit("f"); } "f" },
    }
}

/// Lowercase hex encoding of `bytes`.
pub fn encode(bytes: &[u8]) -> (out: String)
    ensures
        out@ == hex_encode(bytes@),
        out@.len() == 2 * bytes@.len(),
{
    let mut out = String::new();
    let n = bytes.len();
    let mut i: usize = 0;
    while i < n
        invariant
            n == bytes@.len(),
            i <= n,
            out@ == hex_encode(bytes@.take(i as int)),
            out@.len() == 2 * i,
        decreases n - i,
    {
        let b = bytes[i];
        out.append(hex_digit(b / 16));
        out.append(hex_digit(b % 16));
        proof {
            assert(bytes@.take(i + 1).drop_last() =~= bytes@.take(i as int));
        }
        i = i + 1;
    }
    proof {
        assert(bytes@.take(n as int) =~= bytes@);
    }
    out
}

/// Compute the SHA-256 digest of `data` as a 64-character lowercase hex string.
pub fn digest_hex(data: &[u8]) -> (d: String)
    ensures
        d@ == digest_of(data@),
        is_lower_digest(d@),
{
    let hash = sha256_digest(data);
    let d = encode(&hash);
    proof {
        lemma_hex_encode_digits(hash@);
    }
    d
}

/// Compute the SHA-256 digest of `data` as raw 32 bytes.
pub fn digest_bytes(data: &[u8]) -> (d: [u8; 32])
    ensures
        d@ == sha256(data@),
{
    sha256_digest(data)
}

/// Compare an already computed digest with the expected one.
pub fn check_digest(actual: String, expected_hex: &str) -> (r: Result<(), ChunkStoreError>)
    ensures
        r is Ok <==> actual@ == expected_hex@,
        r matches Err(e) ==> e matches ChunkStoreError::DigestMismatch { expected, actual: a }
            && expected@ == expected_hex@ && a@ == actual@,
{
    let expected = String::from_str(expected_hex);
    if actual == expected {
        Ok(())
    } else {
        Err(ChunkStoreError::DigestMismatch { expected, actual })
    }
}

/// Verify that `data` matches the expected hex digest.
pub fn verify_digest(data: &[u8], expected_hex: &str) -> (r: Result<(), ChunkStoreError>)
    ensures
        r is Ok <==> digest_of(data@) == expected_hex@,
        r matches Err(e) ==> e matches ChunkStoreError::DigestMismatch { expected, actual }
            && expected@ == expected_hex@ && actual@ == digest_of(data@),
{
    let actual = digest_hex(data);
    check_digest(actual, expected_hex)
}

} // verus!
