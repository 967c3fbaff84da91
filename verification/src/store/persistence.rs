//! Persisting the manifest and the reference counts as JSON under reserved keys
//! of the backend (`_manifest/...` and `_refcount/...`).
use vstd::prelude::*;
use vstd::string::{StrSliceExecFns, StringExecFns};

use crate::error::ChunkStoreError;
use crate::store::backend::ChunkBackend;
use crate::store::manifest::{strings_view, FileRecord, Manifest};
use crate::store::refcount::RefCount;

verus! {

/// Prefix of the keys under which manifest records are stored.
pub open spec fn manifest_prefix() -> Seq<char> {
    seq!['_', 'm', 'a', 'n', 'i', 'f', 'e', 's', 't', '/']
}

/// Prefix of the keys under which reference counts are stored.
pub open spec fn refcount_prefix() -> Seq<char> {
    seq!['_', 'r', 'e', 'f', 'c', 'o', 'u', 'n', 't', '/']
}

/// Name, after a prefix, of the key that lists what is stored under the prefix.
pub open spec fn index_name() -> Seq<char> {
    seq!['_', '_', 'i', 'n', 'd', 'e', 'x', '_', '_']
}

pub open spec fn manifest_key_of(file_id: Seq<char>) -> Seq<char> {
    manifest_prefix() + file_id
}

pub open spec fn refcount_key_of(digest: Seq<char>) -> Seq<char> {
    refcount_prefix() + digest
}

pub open spec fn manifest_index_key() -> Seq<char> {
    manifest_key_of(index_name())
}

pub open spec fn refcount_index_key() -> Seq<char> {
    refcount_key_of(index_name())
}

/// A key reserved for metadata: it starts with one of the two prefixes.
pub open spec fn is_meta_key(k: Seq<char>) -> bool {
    k.len() >= 10 && (k.take(10) == manifest_prefix() || k.take(10) == refcount_prefix())
}

/// An ASCII hex digit, either case.
pub open spec fn is_hex_digit_char(c: char) -> bool {
    ('0' <= c && c <= '9') || ('a' <= c && c <= 'f') || ('A' <= c && c <= 'F')
}

/// 64 ASCII hex digits, either case: what the store accepts as a chunk digest.
pub open spec fn is_digest_text(s: Seq<char>) -> bool {
    s.len() == 64 && forall|i: int| 0 <= i < s.len() ==> is_hex_digit_char(#[trigger] s[i])
}

/// Metadata keys and digest texts never coincide.
pub proof fn lemma_digest_not_meta(d: Seq<char>)
    requires
        is_digest_text(d),
    ensures
        !is_meta_key(d),
{
    assert(is_hex_digit_char(d[0]));
    if d.take(10) == manifest_prefix() {
        assert(d.take(10)[0] == '_');
    }
    if d.take(10) == refcount_prefix() {
        assert(d.take(10)[0] == '_');
    }
}

pub proof fn lemma_keys_are_meta(x: Seq<char>)
    ensures
        is_meta_key(manifest_key_of(x)),
        is_meta_key(refcount_key_of(x)),
{
    assert(manifest_key_of(x).take(10) =~= manifest_prefix());
    assert(refcount_key_of(x).take(10) =~= refcount_prefix());
}

/// Manifest key for a file ID.
pub fn manifest_key(file_id: &str) -> (k: String)
    ensures
        k@ == manifest_key_of(file_id@),
{
    let mut k = String::from_str("_manifest/");
    proof {
        reveal_strlit("_manifest/");
    }
    k.append(file_id);
    k
}

/// Reference-count key for a digest.
pub fn refcount_key(digest: &str) -> (k: String)
    ensures
        k@ == refcount_key_of(digest@),
{
    let mut k = String::from_str("_refcount/");
    proof {
        reveal_strlit("_refcount/");
    }
    k.append(digest);
    k
}

fn manifest_index() -> (k: String)
    ensures
        k@ == manifest_index_key(),
{
    proof {
        reveal_strlit("__index__");
        assert("__index__"@ =~= index_name());
    }
    manifest_key("__index__")
}

fn refcount_index() -> (k: String)
    ensures
        k@ == refcount_index_key(),
{
    proof {
        reveal_strlit("__index__");
        assert("__index__"@ =~= index_name());
    }
    refcount_key("__index__")
}

/// Reject anything but 64 hex digits.
pub fn validate_digest(digest: &str) -> (r: Result<(), ChunkStoreError>)
    ensures
        r is Ok <==> is_digest_text(digest@),
        r matches Err(e) ==> e is InvalidArgument,
{
    let n = digest.unicode_len();
    let mut ok = n == 64;
    if ok {
        let mut i: usize = 0;
        while i < n
            invariant
                n == digest@.len(),
                i <= n,
                ok == forall|j: int| 0 <= j < i ==> is_hex_digit_char(#[trigger] digest@[j]),
            decreases n - i,
        {
            let c = digest.get_char(i);
            let hex = ('0' <= c && c <= '9') || ('a' <= c && c <= 'f') || ('A' <= c && c <= 'F');
            proof {
                if !hex {
                    assert(!is_hex_digit_char(digest@[i as int]));
                }
            }
            ok = ok && hex;
            i = i + 1;
        }
    }
    if ok {
        Ok(())
    } else {
        let mut msg = String::from_str("invalid digest: ");
        msg.append(digest);
        Err(ChunkStoreError::invalid_argument(msg))
    }
}

/// Outside the metadata keys, the two maps agree.
pub open spec fn blobs_same(s0: Map<Seq<char>, Seq<u8>>, s1: Map<Seq<char>, Seq<u8>>) -> bool {
    forall|k: Seq<char>|
        !is_meta_key(k) ==> (#[trigger] s0.contains_key(k) == s1.contains_key(k) && (s0.contains_key(k)
            ==> s0[k] == s1[k]))
}

pub proof fn lemma_meta_write(s: Map<Seq<char>, Seq<u8>>, k: Seq<char>, v: Seq<u8>)
    requires
        is_meta_key(k),
    ensures
        blobs_same(s, s.insert(k, v)),
        blobs_same(s, s.remove(k)),
{
}

pub proof fn lemma_blobs_same_refl(s: Map<Seq<char>, Seq<u8>>)
    ensures
        blobs_same(s, s),
{
}

pub proof fn lemma_blobs_same_trans(
    s0: Map<Seq<char>, Seq<u8>>,
    s1: Map<Seq<char>, Seq<u8>>,
    s2: Map<Seq<char>, Seq<u8>>,
)
    requires
        blobs_same(s0, s1),
        blobs_same(s1, s2),
    ensures
        blobs_same(s0, s2),
{
    assert forall|k: Seq<char>| !is_meta_key(k) implies (#[trigger] s0.contains_key(k) == s2.contains_key(
        k,
    ) && (s0.contains_key(k) ==> s0[k] == s2[k])) by {
        assert(s0.contains_key(k) == s1.contains_key(k));
    }
}

// ---------------------------------------------------------------------------
// Encodings.

/// The JSON text `serde_json` writes for a list of strings.
pub uninterp spec fn json_strings(values: Seq<Seq<char>>) -> Seq<u8>;

/// The list of strings `serde_json` reads from a JSON text, if it reads one.
pub uninterp spec fn json_strings_value(raw: Seq<u8>) -> Option<Seq<Seq<char>>>;

/// The integer `serde_json` reads from a JSON text, if it reads one.
pub uninterp spec fn json_u64_value(raw: Seq<u8>) -> Option<u64>;

/// Calls `serde_json::to_vec` on a slice of strings. The contract names the text
/// it writes; a JSON array is never empty. It also claims success: serialization
/// fails only where a `Serialize` impl fails or a map has non-string keys, and
/// neither can happen for strings written into a `Vec`.
#[verifier::external_body]
fn encode_string_list(values: &[String]) -> (r: Result<Vec<u8>, String>)
    ensures
        r is Ok,
        r matches Ok(bytes) ==> bytes@ == json_strings(strings_view(values@)) && bytes@.len() > 0,
{
    match serde_json::to_vec(values) {
        Ok(bytes) => Ok(bytes),
        Err(e) => Err(e.to_string()),
    }
}

/// Calls `serde_json::from_slice::<Vec<String>>`. The contract names what it reads
/// and claims that it reads back any list that `serde_json::to_vec` wrote.
#[verifier::external_body]
fn decode_string_list(raw: &[u8]) -> (r: Result<Vec<String>, String>)
    ensures
        r is Ok <==> json_strings_value(raw@) is Some,
        r matches Ok(v) ==> json_strings_value(raw@) == Some(strings_view(v@)),
        r is Err ==> forall|vs: Seq<Seq<char>>| raw@ != #[trigger] json_strings(vs),
        r matches Ok(v) ==> forall|vs: Seq<Seq<char>>|
            raw@ == #[trigger] json_strings(vs) ==> strings_view(v@) == vs,
{
    match serde_json::from_slice::<Vec<String>>(raw) {
        Ok(v) => Ok(v),
        Err(e) => Err(e.to_string()),
    }
}

/// Decimal digits of `n` in ASCII, without leading zeros: how JSON writes an integer.
pub open spec fn decimal_bytes(n: nat) -> Seq<u8>
    decreases n,
{
    if n < 10 {
        seq![(48 + n) as u8]
    } else {
        decimal_bytes(n / 10).push((48 + n % 10) as u8)
    }
}

/// Calls `serde_json::from_slice::<u64>`. The contract names what it reads and
/// claims that it reads back the decimal text of any `u64`.
#[verifier::external_body]
fn decode_u64(raw: &[u8]) -> (r: Result<u64, String>)
    ensures
        r is Ok <==> json_u64_value(raw@) is Some,
        r matches Ok(v) ==> json_u64_value(raw@) == Some(v),
        r is Err ==> forall|n: u64| raw@ != #[trigger] decimal_bytes(n as nat),
        r matches Ok(v) ==> forall|n: u64| raw@ == #[trigger] decimal_bytes(n as nat) ==> v == n,
{
    match serde_json::from_slice::<u64>(raw) {
        Ok(v) => Ok(v),
        Err(e) => Err(e.to_string()),
    }
}

fn push_decimal(n: u64, out: &mut Vec<u8>)
    ensures
        final(out)@ == old(out)@ + decimal_bytes(n as nat),
    decreases n,
{
    if n < 10 {
        out.push((48 + n) as u8);
        proof {
            assert(decimal_bytes(n as nat) =~= seq![(48 + n) as u8]);
        }
    } else {
        push_decimal(n / 10, out);
        out.push((48 + n % 10) as u8);
        proof {
            assert(old(out)@ + decimal_bytes(n as nat) =~= old(out)@ + decimal_bytes((n / 10) as nat)
                + seq![(48 + n % 10) as u8]);
        }
    }
}

/// The decimal text of `n`, as JSON writes it.
pub fn encode_u64(n: u64) -> (bytes: Vec<u8>)
    ensures
        bytes@ == decimal_bytes(n as nat),
{
    let mut out: Vec<u8> = Vec::new();
    push_decimal(n, &mut out);
    proof {
        assert(out@ =~= decimal_bytes(n as nat));
    }
    out
}

proof fn lemma_decimal_digits(n: nat)
    ensures
        decimal_bytes(n).len() > 0,
        forall|i: int| 0 <= i < decimal_bytes(n).len() ==> 48 <= #[trigger] decimal_bytes(n)[i] <= 57,
    decreases n,
{
    if n >= 10 {
        lemma_decimal_digits(n / 10);
    }
}

/// `{"digests":`
pub open spec fn record_head() -> Seq<u8> {
    seq![123u8, 34, 100, 105, 103, 101, 115, 116, 115, 34, 58]
}

/// `,"file_bytes":`
pub open spec fn record_middle() -> Seq<u8> {
    seq![44u8, 34, 102, 105, 108, 101, 95, 98, 121, 116, 101, 115, 34, 58]
}

/// The JSON object `{"digests":[...],"file_bytes":N}` that records one file.
pub open spec fn record_bytes(digests: Seq<Seq<char>>, file_bytes: u64) -> Seq<u8> {
    record_head() + json_strings(digests) + record_middle() + decimal_bytes(file_bytes as nat) + seq![
        125u8,
    ]
}

fn record_head_bytes() -> (v: Vec<u8>)
    ensures
        v@ == record_head(),
{
    let v = vec![123u8, 34, 100, 105, 103, 101, 115, 116, 115, 34, 58];
    proof {
        assert(v@ =~= record_head());
    }
    v
}

fn record_middle_bytes() -> (v: Vec<u8>)
    ensures
        v@ == record_middle(),
{
    let v = vec![44u8, 34, 102, 105, 108, 101, 95, 98, 121, 116, 101, 115, 34, 58];
    proof {
        assert(v@ =~= record_middle());
    }
    v
}

/// Encode the record of one file.
pub fn encode_manifest_record(digests: &[String], file_bytes: u64) -> (r: Result<Vec<u8>, String>)
    ensures
        r is Ok,
        r matches Ok(bytes) ==> bytes@ == record_bytes(strings_view(digests@), file_bytes),
{
    let mut out = record_head_bytes();
    let mut list = encode_string_list(digests)?;
    out.append(&mut list);
    let mut mid = record_middle_bytes();
    out.append(&mut mid);
    let mut num = encode_u64(file_bytes);
    out.append(&mut num);
    out.push(125u8);
    proof {
        assert(out@ =~= record_bytes(strings_view(digests@), file_bytes));
    }
    Ok(out)
}

fn bytes_equal(a: &[u8], b: &[u8]) -> (r: bool)
    ensures
        r == (a@ == b@),
{
    if a.len() != b.len() {
        return false;
    }
    let n = a.len();
    let mut i: usize = 0;
    while i < n
        invariant
            n == a@.len(),
            n == b@.len(),
            i <= n,
            forall|j: int| 0 <= j < i ==> a@[j] == b@[j],
        decreases n - i,
    {
        if a[i] != b[i] {
            return false;
        }
        i = i + 1;
    }
    proof {
        assert(a@ =~= b@);
    }
    true
}

/// Decode the record of one file, as written by [`encode_manifest_record`].
///
/// The record format is the compact layout that this library writes,
/// `{"digests":[...],"file_bytes":N}` with no whitespace and the fields in this
/// order; the digest list and the number inside it are read by `serde_json`.
/// A record in another layout of the same JSON object (whitespace, the fields
/// swapped, extra fields) is refused as invalid rather than guessed at.
#[verifier::spinoff_prover]
pub fn decode_manifest_record(raw: &[u8]) -> (r: Result<(Vec<String>, u64), String>)
    ensures
        r matches Ok((ds, n)) ==> exists|list: Seq<u8>, num: Seq<u8>|
            {
                &&& raw@ == record_head() + list + record_middle() + num + seq![125u8]
                &&& json_strings_value(list) == Some(strings_view(ds@))
                &&& json_u64_value(num) == Some(n)
            },
        forall|ds: Seq<Seq<char>>, n: u64|
            raw@ == #[trigger] record_bytes(ds, n) ==> (r matches Ok((v, m)) && strings_view(v@) == ds
                && m == n),
{
    let len = raw.len();
    let head = record_head_bytes();
    let mid = record_middle_bytes();
    if len < head.len() + mid.len() + 1 || raw[len - 1] != 125u8 {
        proof {
            assert forall|ds: Seq<Seq<char>>, n: u64| raw@ != #[trigger] record_bytes(ds, n) by {
                if raw@ == record_bytes(ds, n) {
                    lemma_decimal_digits(n as nat);
                    assert(raw@[raw@.len() - 1] == 125u8);
                }
            }
        }
        return Err(String::from_str("invalid manifest record"));
    }
    let h = head.len();
    let first = vstd::slice::slice_subrange(raw, 0, h);
    if !bytes_equal(first, head.as_slice()) {
        proof {
            assert forall|ds: Seq<Seq<char>>, n: u64| raw@ != #[trigger] record_bytes(ds, n) by {
                if raw@ == record_bytes(ds, n) {
                    assert(first@ =~= record_head());
                }
            }
        }
        return Err(String::from_str("invalid manifest record"));
    }
    // The last comma before the closing brace opens the `"file_bytes"` field: neither
    // the rest of that field's name nor the decimal digits after it hold a comma.
    let mut c: usize = len - 1;
    while c > h && raw[c - 1] != 44u8
        invariant
            h <= c <= len - 1,
            len == raw@.len(),
            forall|j: int| c <= j < len - 1 ==> raw@[j] != 44u8,
        decreases c,
    {
        c = c - 1;
    }
    if c == h || len - 1 - (c - 1) < mid.len() {
        proof {
            assert forall|ds: Seq<Seq<char>>, n: u64| raw@ != #[trigger] record_bytes(ds, n) by {
                if raw@ == record_bytes(ds, n) {
                    lemma_record_split(raw@, ds, n);
                }
            }
        }
        return Err(String::from_str("invalid manifest record"));
    }
    let comma = c - 1;
    let field = vstd::slice::slice_subrange(raw, comma, comma + mid.len());
    if !bytes_equal(field, mid.as_slice()) {
        proof {
            assert forall|ds: Seq<Seq<char>>, n: u64| raw@ != #[trigger] record_bytes(ds, n) by {
                if raw@ == record_bytes(ds, n) {
                    lemma_record_split(raw@, ds, n);
                    assert(field@ =~= record_middle());
                }
            }
        }
        return Err(String::from_str("invalid manifest record"));
    }
    let list = vstd::slice::slice_subrange(raw, h, comma);
    let num = vstd::slice::slice_subrange(raw, comma + mid.len(), len - 1);
    proof {
        assert(raw@ =~= record_head() + list@ + record_middle() + num@ + seq![125u8]);
        assert forall|ds: Seq<Seq<char>>, n: u64| raw@ == #[trigger] record_bytes(ds, n) implies list@
            == json_strings(ds) && num@ == decimal_bytes(n as nat) by {
            lemma_record_split(raw@, ds, n);
            assert(list@ =~= json_strings(ds));
            assert(num@ =~= decimal_bytes(n as nat));
        }
    }
    let digests = decode_string_list(list)?;
    let n = decode_u64(num)?;
    Ok((digests, n))
}

/// Position of the comma that opens the `"file_bytes"` field of a record.
pub open spec fn record_comma(ds: Seq<Seq<char>>) -> int {
    (record_head().len() + json_strings(ds).len()) as int
}

/// In a record, the comma of the `"file_bytes"` field is the last comma.
proof fn lemma_record_split(raw: Seq<u8>, ds: Seq<Seq<char>>, n: u64)
    requires
        raw == record_bytes(ds, n),
    ensures
        raw.len() >= record_comma(ds) + record_middle().len() + 2,
        raw[record_comma(ds)] == 44u8,
        forall|j: int| record_comma(ds) < j < raw.len() - 1 ==> #[trigger] raw[j] != 44u8,
        raw.len() - 1 - record_comma(ds) >= record_middle().len(),
        raw.subrange(0, record_head().len() as int) == record_head(),
        raw.subrange(record_head().len() as int, record_comma(ds)) == json_strings(ds),
        raw.subrange(record_comma(ds), record_comma(ds) + record_middle().len()) == record_middle(),
        raw.subrange(record_comma(ds) + record_middle().len(), raw.len() - 1) == decimal_bytes(
            n as nat,
        ),
{
    lemma_decimal_digits(n as nat);
    let h = record_head().len() as int;
    let l = json_strings(ds).len() as int;
    let m = record_middle().len() as int;
    let d = decimal_bytes(n as nat);
    assert(raw.len() == h + l + m + d.len() + 1);
    assert forall|j: int| h + l < j < raw.len() - 1 implies #[trigger] raw[j] != 44u8 by {
        if j < h + l + m {
            assert(raw[j] == record_middle()[j - h - l]);
        } else {
            assert(raw[j] == d[j - h - l - m]);
        }
    }
    assert(raw[h + l] == record_middle()[0]);
    assert(raw.subrange(0, h) =~= record_head());
    assert(raw.subrange(h, h + l) =~= json_strings(ds));
    assert(raw.subrange(h + l, h + l + m) =~= record_middle());
    assert(raw.subrange(h + l + m, raw.len() - 1) =~= d);
}

// ---------------------------------------------------------------------------
// Index lists and records in the backend.

/// The list stored under an index key, where it reads as one; an absent key
/// stands for the empty list.
pub open spec fn stored_list(s: Map<Seq<char>, Seq<u8>>, key: Seq<char>) -> Option<Seq<Seq<char>>> {
    if s.contains_key(key) {
        json_strings_value(s[key])
    } else {
        Some(Seq::empty())
    }
}

/// What a successful read of the list under `key` may give.
pub open spec fn list_read_as(s: Map<Seq<char>, Seq<u8>>, key: Seq<char>, l: Seq<Seq<char>>) -> bool {
    ||| stored_list(s, key) == Some(l)
    ||| (s.contains_key(key) && s[key].len() == 0 && l.len() == 0)
}

/// The list under `key` reads back: the key is absent, or it holds a text that
/// reads as a list of strings (as any text written from a list does).
pub open spec fn list_readable(s: Map<Seq<char>, Seq<u8>>, key: Seq<char>) -> bool {
    ||| !s.contains_key(key)
    ||| json_strings_value(s[key]) is Some
    ||| exists|l: Seq<Seq<char>>| #[trigger] json_strings(l) == s[key]
}

/// An index that lists a set of keys reads back.
pub proof fn lemma_index_lists_readable(s: Map<Seq<char>, Seq<u8>>, key: Seq<char>, keys: Set<Seq<char>>)
    requires
        index_lists(s, key, keys),
    ensures
        list_readable(s, key),
{
}

/// Whether the list under `key` reads back depends on what `key` holds alone.
pub proof fn lemma_list_readable_other_key(s: Map<Seq<char>, Seq<u8>>, key: Seq<char>, k: Seq<char>, v: Seq<u8>)
    requires
        k != key,
        list_readable(s, key),
    ensures
        list_readable(s.insert(k, v), key),
        list_readable(s.remove(k), key),
{
    if s.contains_key(key) && !(json_strings_value(s[key]) is Some) {
        let l = choose|l: Seq<Seq<char>>| #[trigger] json_strings(l) == s[key];
        assert(json_strings(l) == s.insert(k, v)[key]);
        assert(json_strings(l) == s.remove(k)[key]);
    }
}

/// Both index lists read back.
pub open spec fn indexes_readable(s: Map<Seq<char>, Seq<u8>>) -> bool {
    list_readable(s, manifest_index_key()) && list_readable(s, refcount_index_key())
}

/// Removing any key keeps a list readable: the list itself either stays or goes.
pub proof fn lemma_list_readable_remove(s: Map<Seq<char>, Seq<u8>>, key: Seq<char>, k: Seq<char>)
    requires
        list_readable(s, key),
    ensures
        list_readable(s.remove(k), key),
{
    if k != key {
        lemma_list_readable_other_key(s, key, k, Seq::empty());
    }
}

/// Two maps that differ only under `k` read the same list under another key.
pub proof fn lemma_list_readable_same_except(
    s1: Map<Seq<char>, Seq<u8>>,
    s2: Map<Seq<char>, Seq<u8>>,
    k: Seq<char>,
    key: Seq<char>,
)
    requires
        same_except(s1, s2, k),
        k != key,
        list_readable(s1, key),
    ensures
        list_readable(s2, key),
{
    assert(s1.remove(k).contains_key(key) == s1.contains_key(key));
    assert(s2.remove(k).contains_key(key) == s2.contains_key(key));
    if s1.contains_key(key) {
        assert(s1.remove(k)[key] == s1[key]);
        assert(s2.remove(k)[key] == s2[key]);
        if !(json_strings_value(s1[key]) is Some) {
            let l = choose|l: Seq<Seq<char>>| #[trigger] json_strings(l) == s1[key];
            assert(json_strings(l) == s2[key]);
        }
    }
}

/// The two index keys differ, and neither is the key of a digest text.
pub proof fn lemma_index_keys_apart()
    ensures
        manifest_index_key() != refcount_index_key(),
{
    lemma_key_spaces(index_name(), index_name());
}

/// A refcount key of a digest text is never the refcount index key.
pub proof fn lemma_digest_key_not_index(d: Seq<char>)
    requires
        is_digest_text(d),
    ensures
        refcount_key_of(d) != refcount_index_key(),
        manifest_key_of(d) != manifest_index_key(),
{
    lemma_prefixed_injective(refcount_prefix(), d, index_name());
    lemma_prefixed_injective(manifest_prefix(), d, index_name());
}

/// `l` without any occurrence of `x`.
pub open spec fn list_without(l: Seq<Seq<char>>, x: Seq<char>) -> Seq<Seq<char>> {
    l.filter(differs_from(x))
}

/// The test that keeps everything but `x`.
pub open spec fn differs_from(x: Seq<char>) -> spec_fn(Seq<char>) -> bool {
    |y: Seq<char>| y != x
}

/// `s0` and `s1` differ at most under `key`.
pub open spec fn same_except(s0: Map<Seq<char>, Seq<u8>>, s1: Map<Seq<char>, Seq<u8>>, key: Seq<char>) -> bool {
    s0.remove(key) == s1.remove(key)
}

/// The two maps agree at `k`.
pub open spec fn agree_at(s0: Map<Seq<char>, Seq<u8>>, s1: Map<Seq<char>, Seq<u8>>, k: Seq<char>) -> bool {
    s0.contains_key(k) == s1.contains_key(k) && (s0.contains_key(k) ==> s0[k] == s1[k])
}

/// The two maps agree on every key under the manifest prefix.
pub open spec fn manifest_keys_same(s0: Map<Seq<char>, Seq<u8>>, s1: Map<Seq<char>, Seq<u8>>) -> bool {
    forall|x: Seq<char>| #[trigger] agree_at(s0, s1, manifest_key_of(x))
}

/// The two maps agree on every key under the refcount prefix.
pub open spec fn refcount_keys_same(s0: Map<Seq<char>, Seq<u8>>, s1: Map<Seq<char>, Seq<u8>>) -> bool {
    forall|x: Seq<char>| #[trigger] agree_at(s0, s1, refcount_key_of(x))
}

/// The index under `key` lists exactly `keys` (an absent index lists nothing).
pub open spec fn index_lists(s: Map<Seq<char>, Seq<u8>>, key: Seq<char>, keys: Set<Seq<char>>) -> bool {
    if s.contains_key(key) {
        s[key].len() > 0 && exists|l: Seq<Seq<char>>| #[trigger] json_strings(l) == s[key] && l.to_set() == keys
    } else {
        keys == Set::<Seq<char>>::empty()
    }
}

/// The backend holds `m` as the manifest: its index lists the files of `m`, and
/// each file's record holds its digests and size.
pub open spec fn holds_manifest(s: Map<Seq<char>, Seq<u8>>, m: Map<Seq<char>, FileRecord>) -> bool {
    &&& index_lists(s, manifest_index_key(), m.dom())
    &&& !m.contains_key(index_name())
    &&& forall|k: Seq<char>| #[trigger]
        m.contains_key(k) ==> s.contains_key(manifest_key_of(k)) && s[manifest_key_of(k)] == record_bytes(
            m[k].0,
            m[k].1,
        )
}

/// The backend holds `rc` as the reference counts: its index lists the digests
/// of `rc`, and each digest's positive count is stored in decimal.
pub open spec fn holds_counts(s: Map<Seq<char>, Seq<u8>>, rc: Map<Seq<char>, u64>) -> bool {
    &&& index_lists(s, refcount_index_key(), rc.dom())
    &&& forall|d: Seq<char>| #[trigger]
        rc.contains_key(d) ==> {
            &&& is_digest_text(d)
            &&& rc[d] > 0
            &&& s.contains_key(refcount_key_of(d))
            &&& s[refcount_key_of(d)] == decimal_bytes(rc[d] as nat)
        }
}

/// Two keys under one prefix are equal only for equal suffixes.
pub proof fn lemma_prefixed_injective(p: Seq<char>, a: Seq<char>, b: Seq<char>)
    ensures
        p + a == p + b ==> a == b,
{
    if p + a == p + b {
        assert((p + a).skip(p.len() as int) =~= a);
        assert((p + b).skip(p.len() as int) =~= b);
    }
}

/// Manifest keys and refcount keys never coincide.
pub proof fn lemma_key_spaces(x: Seq<char>, y: Seq<char>)
    ensures
        manifest_key_of(x) != refcount_key_of(y),
{
    assert(manifest_key_of(x)[1] == 'm');
    assert(refcount_key_of(y)[1] == 'r');
}

/// A write under a key outside the manifest prefix leaves the manifest keys alone.
pub proof fn lemma_write_outside_manifest(s: Map<Seq<char>, Seq<u8>>, k: Seq<char>, v: Seq<u8>)
    requires
        !is_meta_key(k) || exists|y: Seq<char>| k == refcount_key_of(y),
    ensures
        manifest_keys_same(s, s.insert(k, v)),
        manifest_keys_same(s, s.remove(k)),
{
    assert forall|x: Seq<char>| #[trigger] agree_at(s, s.insert(k, v), manifest_key_of(x)) by {
        lemma_keys_are_meta(x);
        if is_meta_key(k) {
            let y = choose|y: Seq<char>| k == refcount_key_of(y);
            lemma_key_spaces(x, y);
        }
    }
    assert forall|x: Seq<char>| #[trigger] agree_at(s, s.remove(k), manifest_key_of(x)) by {
        lemma_keys_are_meta(x);
        if is_meta_key(k) {
            let y = choose|y: Seq<char>| k == refcount_key_of(y);
            lemma_key_spaces(x, y);
        }
    }
}

/// A write under a key outside the refcount prefix leaves the refcount keys alone.
pub proof fn lemma_write_outside_counts(s: Map<Seq<char>, Seq<u8>>, k: Seq<char>, v: Seq<u8>)
    requires
        !is_meta_key(k) || exists|y: Seq<char>| k == manifest_key_of(y),
    ensures
        refcount_keys_same(s, s.insert(k, v)),
        refcount_keys_same(s, s.remove(k)),
{
    assert forall|x: Seq<char>| #[trigger] agree_at(s, s.insert(k, v), refcount_key_of(x)) by {
        lemma_keys_are_meta(x);
        if is_meta_key(k) {
            let y = choose|y: Seq<char>| k == manifest_key_of(y);
            lemma_key_spaces(y, x);
        }
    }
    assert forall|x: Seq<char>| #[trigger] agree_at(s, s.remove(k), refcount_key_of(x)) by {
        lemma_keys_are_meta(x);
        if is_meta_key(k) {
            let y = choose|y: Seq<char>| k == manifest_key_of(y);
            lemma_key_spaces(y, x);
        }
    }
}

pub proof fn lemma_manifest_keys_same_trans(
    s0: Map<Seq<char>, Seq<u8>>,
    s1: Map<Seq<char>, Seq<u8>>,
    s2: Map<Seq<char>, Seq<u8>>,
)
    requires
        manifest_keys_same(s0, s1),
        manifest_keys_same(s1, s2),
    ensures
        manifest_keys_same(s0, s2),
{
    assert forall|x: Seq<char>| #[trigger] agree_at(s0, s2, manifest_key_of(x)) by {
        assert(agree_at(s0, s1, manifest_key_of(x)));
        assert(agree_at(s1, s2, manifest_key_of(x)));
    }
}

pub proof fn lemma_refcount_keys_same_trans(
    s0: Map<Seq<char>, Seq<u8>>,
    s1: Map<Seq<char>, Seq<u8>>,
    s2: Map<Seq<char>, Seq<u8>>,
)
    requires
        refcount_keys_same(s0, s1),
        refcount_keys_same(s1, s2),
    ensures
        refcount_keys_same(s0, s2),
{
    assert forall|x: Seq<char>| #[trigger] agree_at(s0, s2, refcount_key_of(x)) by {
        assert(agree_at(s0, s1, refcount_key_of(x)));
        assert(agree_at(s1, s2, refcount_key_of(x)));
    }
}

/// An index reads the same from two maps that agree under its key.
proof fn lemma_index_lists_agree(
    s0: Map<Seq<char>, Seq<u8>>,
    s1: Map<Seq<char>, Seq<u8>>,
    key: Seq<char>,
    keys: Set<Seq<char>>,
)
    requires
        agree_at(s0, s1, key),
        index_lists(s0, key, keys),
    ensures
        index_lists(s1, key, keys),
{
    if s0.contains_key(key) {
        let l = choose|l: Seq<Seq<char>>| #[trigger] json_strings(l) == s0[key] && l.to_set() == keys;
        assert(json_strings(l) == s1[key]);
    }
}

/// What the manifest keys hold is all that the manifest image depends on.
pub proof fn lemma_holds_manifest_frame(
    s0: Map<Seq<char>, Seq<u8>>,
    s1: Map<Seq<char>, Seq<u8>>,
    m: Map<Seq<char>, FileRecord>,
)
    requires
        manifest_keys_same(s0, s1),
        holds_manifest(s0, m),
    ensures
        holds_manifest(s1, m),
{
    assert(agree_at(s0, s1, manifest_key_of(index_name())));
    lemma_index_lists_agree(s0, s1, manifest_index_key(), m.dom());
    assert forall|k: Seq<char>| #[trigger] m.contains_key(k) implies s1.contains_key(manifest_key_of(k))
        && s1[manifest_key_of(k)] == record_bytes(m[k].0, m[k].1) by {
        assert(agree_at(s0, s1, manifest_key_of(k)));
    }
}

/// What the refcount keys hold is all that the counts image depends on.
pub proof fn lemma_holds_counts_frame(
    s0: Map<Seq<char>, Seq<u8>>,
    s1: Map<Seq<char>, Seq<u8>>,
    rc: Map<Seq<char>, u64>,
)
    requires
        refcount_keys_same(s0, s1),
        holds_counts(s0, rc),
    ensures
        holds_counts(s1, rc),
{
    assert(agree_at(s0, s1, refcount_key_of(index_name())));
    lemma_index_lists_agree(s0, s1, refcount_index_key(), rc.dom());
    assert forall|d: Seq<char>| #[trigger] rc.contains_key(d) implies s1.contains_key(refcount_key_of(d))
        && s1[refcount_key_of(d)] == decimal_bytes(rc[d] as nat) by {
        assert(agree_at(s0, s1, refcount_key_of(d)));
    }
}

/// A backend without metadata holds the empty manifest and no counts.
pub proof fn lemma_fresh_image(s: Map<Seq<char>, Seq<u8>>)
    requires
        forall|k: Seq<char>| #[trigger] s.contains_key(k) ==> !is_meta_key(k),
    ensures
        holds_manifest(s, Map::empty()),
        holds_counts(s, Map::empty()),
{
    lemma_keys_are_meta(index_name());
    assert(Map::<Seq<char>, FileRecord>::empty().dom() =~= Set::empty());
    assert(Map::<Seq<char>, u64>::empty().dom() =~= Set::empty());
}

proof fn lemma_without_to_set(l: Seq<Seq<char>>, x: Seq<char>)
    ensures
        list_without(l, x).to_set() =~= l.to_set().remove(x),
{
    assert forall|w: Seq<char>| list_without(l, x).to_set().contains(w) <==> l.to_set().remove(x).contains(w) by {
        if list_without(l, x).contains(w) {
            l.lemma_filter_contains_rev(differs_from(x), w);
            let i = choose|i: int| 0 <= i < list_without(l, x).len() && list_without(l, x)[i] == w;
            l.lemma_filter_pred(differs_from(x), i);
        }
        if l.contains(w) && w != x {
            let i = choose|i: int| 0 <= i < l.len() && l[i] == w;
            l.lemma_filter_contains(differs_from(x), i);
        }
    }
}

fn read_string_list<B: ChunkBackend>(backend: &B, key: &str) -> (r: Result<Vec<String>, ChunkStoreError>)
    ensures
        backend.infallible() ==> (r is Ok <==> list_readable(backend.stored(), key@)),
        r matches Ok(v) ==> list_read_as(backend.stored(), key@, strings_view(v@)),
        r matches Ok(v) ==> forall|keys: Set<Seq<char>>| #[trigger]
            index_lists(backend.stored(), key@, keys) ==> strings_view(v@).to_set() == keys,
{
    match backend.get(key)? {
        Some(raw) => match decode_string_list(raw.as_slice()) {
            Ok(v) => {
                proof {
                    let s = backend.stored();
                    assert forall|keys: Set<Seq<char>>| #[trigger]
                        index_lists(s, key@, keys) implies strings_view(v@).to_set() == keys by {
                        let l = choose|l: Seq<Seq<char>>| #[trigger] json_strings(l) == s[key@] && l.to_set() == keys;
                        assert(raw@ == json_strings(l));
                    }
                }
                Ok(v)
            },
            Err(e) => {
                let mut msg = String::from_str("invalid index JSON at ");
                msg.append(key);
                msg.append(": ");
                msg.append(e.as_str());
                Err(ChunkStoreError::backend(msg))
            },
        },
        None => {
            let v: Vec<String> = Vec::new();
            proof {
                assert(strings_view(v@) =~= Seq::<Seq<char>>::empty());
                assert(strings_view(v@).to_set() =~= Set::<Seq<char>>::empty());
            }
            Ok(v)
        },
    }
}

fn write_string_list<B: ChunkBackend>(backend: &mut B, key: &str, values: &[String]) -> (r: Result<
    (),
    ChunkStoreError,
>)
    ensures
        r is Ok ==> (*final(backend)).stored() == (*old(backend)).stored().insert(
            key@,
            json_strings(strings_view(values@)),
        ),
        r is Ok ==> json_strings(strings_view(values@)).len() > 0,
        (*old(backend)).infallible() ==> r is Ok,
        (*final(backend)).infallible() == (*old(backend)).infallible(),
{
    let payload = match encode_string_list(values) {
        Ok(p) => p,
        Err(e) => {
            let mut msg = String::from_str("index encode failed: ");
            msg.append(e.as_str());
            return Err(ChunkStoreError::backend(msg));
        },
    };
    backend.put(key, payload.as_slice())
}

/// Whether two lists of strings are equal, element by element.
fn strings_equal(a: &Vec<String>, b: &[String]) -> (r: bool)
    ensures
        r == (strings_view(a@) == strings_view(b@)),
{
    if a.len() != b.len() {
        proof {
            assert(strings_view(a@).len() != strings_view(b@).len());
        }
        return false;
    }
    let n = a.len();
    let mut i: usize = 0;
    while i < n
        invariant
            n == a@.len(),
            n == b@.len(),
            i <= n,
            forall|j: int| 0 <= j < i ==> a@[j]@ == b@[j]@,
        decreases n - i,
    {
        if a[i] != b[i] {
            proof {
                assert(strings_view(a@)[i as int] != strings_view(b@)[i as int]);
            }
            return false;
        }
        i = i + 1;
    }
    proof {
        assert(strings_view(a@) =~= strings_view(b@));
    }
    true
}

fn list_contains(list: &Vec<String>, item: &str) -> (r: bool)
    ensures
        r == strings_view(list@).contains(item@),
{
    let key = String::from_str(item);
    let n = list.len();
    let mut i: usize = 0;
    while i < n
        invariant
            n == list@.len(),
            i <= n,
            key@ == item@,
            forall|j: int| 0 <= j < i ==> #[trigger] list@[j]@ != item@,
        decreases n - i,
    {
        if list[i] == key {
            proof {
                assert(strings_view(list@)[i as int] == item@);
            }
            return true;
        }
        i = i + 1;
    }
    proof {
        if strings_view(list@).contains(item@) {
            let j = choose|j: int| 0 <= j < strings_view(list@).len() && strings_view(list@)[j] == item@;
            assert(list@[j]@ == item@);
        }
    }
    false
}

fn list_remove_all(list: &Vec<String>, item: &str) -> (r: Vec<String>)
    ensures
        strings_view(r@) == list_without(strings_view(list@), item@),
{
    let key = String::from_str(item);
    let n = list.len();
    let mut out: Vec<String> = Vec::new();
    let mut i: usize = 0;
    while i < n
        invariant
            n == list@.len(),
            i <= n,
            key@ == item@,
            strings_view(out@) == list_without(strings_view(list@).take(i as int), item@),
        decreases n - i,
    {
        proof {
            reveal(Seq::filter);
            assert(strings_view(list@).take(i + 1).drop_last() =~= strings_view(list@).take(i as int));
        }
        if list[i] != key {
            let ghost prev = out@;
            out.push(list[i].clone());
            proof {
                assert(strings_view(out@) =~= strings_view(prev).push(list@[i as int]@));
            }
        }
        i = i + 1;
    }
    proof {
        assert(strings_view(list@).take(n as int) =~= strings_view(list@));
    }
    out
}

/// Add `item` to the list under `key` unless it is there.
fn index_add<B: ChunkBackend>(backend: &mut B, key: &str, item: &str) -> (r: Result<(), ChunkStoreError>)
    ensures
        (*old(backend)).infallible() && r is Ok ==> list_readable((*final(backend)).stored(), key@),
        (*old(backend)).infallible() ==> (r is Ok <==> list_readable((*old(backend)).stored(), key@)),
        (*final(backend)).infallible() == (*old(backend)).infallible(),
        r is Ok ==> same_except((*old(backend)).stored(), (*final(backend)).stored(), key@),
        r is Ok ==> forall|keys: Set<Seq<char>>| #[trigger]
            index_lists((*old(backend)).stored(), key@, keys) ==> index_lists(
                (*final(backend)).stored(),
                key@,
                keys.insert(item@),
            ),
        r is Ok && is_meta_key(key@) ==> blobs_same((*old(backend)).stored(), (*final(backend)).stored()),
        r is Ok ==> exists|l: Seq<Seq<char>>|
            {
                &&& #[trigger] list_read_as((*old(backend)).stored(), key@, l)
                &&& if l.contains(item@) {
                    (*final(backend)).stored() == (*old(backend)).stored()
                } else {
                    (*final(backend)).stored() == (*old(backend)).stored().insert(
                        key@,
                        json_strings(l.push(item@)),
                    ) && json_strings(l.push(item@)).len() > 0
                }
            },
{
    let mut index = read_string_list(backend, key)?;
    let ghost l = strings_view(index@);
    if !list_contains(&index, item) {
        index.push(String::from_str(item));
        proof {
            assert(strings_view(index@) =~= l.push(item@));
        }
        write_string_list(backend, key, index.as_slice())?;
        proof {
            if is_meta_key(key@) {
                lemma_meta_write((*old(backend)).stored(), key@, json_strings(l.push(item@)));
            }
            let s0 = (*old(backend)).stored();
            assert(s0.remove(key@) =~= (*backend).stored().remove(key@));
            assert forall|keys: Set<Seq<char>>| #[trigger]
                index_lists(s0, key@, keys) implies index_lists((*backend).stored(), key@, keys.insert(item@)) by {
                l.lemma_push_to_set_commute(item@);
                assert(json_strings(l.push(item@)) == (*backend).stored()[key@]);
            }
        }
    } else {
        proof {
            assert forall|keys: Set<Seq<char>>| #[trigger]
                index_lists((*old(backend)).stored(), key@, keys) implies index_lists((*backend).stored(), key@, keys.insert(item@)) by {
                assert(keys.insert(item@) =~= keys);
            }
        }
    }
    proof {
        assert(list_read_as((*old(backend)).stored(), key@, l));
    }
    Ok(())
}

/// Remove every occurrence of `item` from the list under `key`, writing the list back.
fn index_remove<B: ChunkBackend>(backend: &mut B, key: &str, item: &str) -> (r: Result<(), ChunkStoreError>)
    ensures
        (*old(backend)).infallible() && r is Ok ==> list_readable((*final(backend)).stored(), key@),
        (*old(backend)).infallible() ==> (r is Ok <==> list_readable((*old(backend)).stored(), key@)),
        (*final(backend)).infallible() == (*old(backend)).infallible(),
        r is Ok ==> same_except((*old(backend)).stored(), (*final(backend)).stored(), key@),
        r is Ok ==> forall|keys: Set<Seq<char>>| #[trigger]
            index_lists((*old(backend)).stored(), key@, keys) ==> index_lists(
                (*final(backend)).stored(),
                key@,
                keys.remove(item@),
            ),
        r is Ok && is_meta_key(key@) ==> blobs_same((*old(backend)).stored(), (*final(backend)).stored()),
        r is Ok ==> exists|l: Seq<Seq<char>>|
            {
                &&& #[trigger] list_read_as((*old(backend)).stored(), key@, l)
                &&& (*final(backend)).stored() == (*old(backend)).stored().insert(
                    key@,
                    json_strings(list_without(l, item@)),
                )
                &&& json_strings(list_without(l, item@)).len() > 0
            },
{
    let index = read_string_list(backend, key)?;
    let ghost l = strings_view(index@);
    let kept = list_remove_all(&index, item);
    write_string_list(backend, key, kept.as_slice())?;
    proof {
        let s0 = (*old(backend)).stored();
        assert(s0.remove(key@) =~= (*backend).stored().remove(key@));
        assert forall|keys: Set<Seq<char>>| #[trigger]
            index_lists(s0, key@, keys) implies index_lists((*backend).stored(), key@, keys.remove(item@)) by {
            lemma_without_to_set(l, item@);
            assert(json_strings(strings_view(kept@)) == (*backend).stored()[key@]);
        }
        assert(list_read_as((*old(backend)).stored(), key@, l));
        if is_meta_key(key@) {
            lemma_meta_write((*old(backend)).stored(), key@, json_strings(strings_view(kept@)));
        }
    }
    Ok(())
}

/// A change confined to a manifest key leaves the refcount keys alone.
proof fn lemma_change_at_manifest_key(s1: Map<Seq<char>, Seq<u8>>, s2: Map<Seq<char>, Seq<u8>>, y: Seq<char>)
    requires
        same_except(s1, s2, manifest_key_of(y)),
    ensures
        refcount_keys_same(s1, s2),
{
    assert forall|x: Seq<char>| #[trigger] agree_at(s1, s2, refcount_key_of(x)) by {
        lemma_key_spaces(y, x);
        assert(s1.remove(manifest_key_of(y)).contains_key(refcount_key_of(x)) == s1.contains_key(refcount_key_of(x)));
        assert(s2.remove(manifest_key_of(y)).contains_key(refcount_key_of(x)) == s2.contains_key(refcount_key_of(x)));
        if s1.contains_key(refcount_key_of(x)) {
            assert(s1.remove(manifest_key_of(y))[refcount_key_of(x)] == s1[refcount_key_of(x)]);
            assert(s2.remove(manifest_key_of(y))[refcount_key_of(x)] == s2[refcount_key_of(x)]);
        }
    }
}

/// A change confined to a refcount key leaves the manifest keys alone.
proof fn lemma_change_at_refcount_key(s1: Map<Seq<char>, Seq<u8>>, s2: Map<Seq<char>, Seq<u8>>, y: Seq<char>)
    requires
        same_except(s1, s2, refcount_key_of(y)),
    ensures
        manifest_keys_same(s1, s2),
{
    assert forall|x: Seq<char>| #[trigger] agree_at(s1, s2, manifest_key_of(x)) by {
        lemma_key_spaces(x, y);
        assert(s1.remove(refcount_key_of(y)).contains_key(manifest_key_of(x)) == s1.contains_key(manifest_key_of(x)));
        assert(s2.remove(refcount_key_of(y)).contains_key(manifest_key_of(x)) == s2.contains_key(manifest_key_of(x)));
        if s1.contains_key(manifest_key_of(x)) {
            assert(s1.remove(refcount_key_of(y))[manifest_key_of(x)] == s1[manifest_key_of(x)]);
            assert(s2.remove(refcount_key_of(y))[manifest_key_of(x)] == s2[manifest_key_of(x)]);
        }
    }
}

/// Writing a file's record and listing the file keeps the manifest image, with the file added.
proof fn lemma_manifest_record_written(
    s0: Map<Seq<char>, Seq<u8>>,
    s1: Map<Seq<char>, Seq<u8>>,
    s2: Map<Seq<char>, Seq<u8>>,
    id: Seq<char>,
    rec: FileRecord,
    m: Map<Seq<char>, FileRecord>,
)
    requires
        id != index_name(),
        s1 == s0.insert(manifest_key_of(id), record_bytes(rec.0, rec.1)),
        same_except(s1, s2, manifest_index_key()),
        forall|keys: Set<Seq<char>>| #[trigger]
            index_lists(s1, manifest_index_key(), keys) ==> index_lists(s2, manifest_index_key(), keys.insert(id)),
        holds_manifest(s0, m),
    ensures
        holds_manifest(s2, m.insert(id, rec)),
{
    let mi = manifest_index_key();
    lemma_prefixed_injective(manifest_prefix(), id, index_name());
    lemma_index_lists_agree(s0, s1, mi, m.dom());
    assert(index_lists(s2, mi, m.dom().insert(id)));
    assert(m.insert(id, rec).dom() =~= m.dom().insert(id));
    assert forall|k: Seq<char>| #[trigger] m.insert(id, rec).contains_key(k) implies s2.contains_key(
        manifest_key_of(k),
    ) && s2[manifest_key_of(k)] == record_bytes(m.insert(id, rec)[k].0, m.insert(id, rec)[k].1) by {
        lemma_prefixed_injective(manifest_prefix(), k, index_name());
        lemma_prefixed_injective(manifest_prefix(), k, id);
        assert(s1.remove(mi)[manifest_key_of(k)] == s1[manifest_key_of(k)]);
        assert(s2.remove(mi)[manifest_key_of(k)] == s2[manifest_key_of(k)]);
        assert(s1.remove(mi).contains_key(manifest_key_of(k)));
    }
}

/// Deleting a file's record and unlisting the file keeps the manifest image, with the file gone.
proof fn lemma_manifest_record_removed(
    s0: Map<Seq<char>, Seq<u8>>,
    s1: Map<Seq<char>, Seq<u8>>,
    s2: Map<Seq<char>, Seq<u8>>,
    id: Seq<char>,
    m: Map<Seq<char>, FileRecord>,
)
    requires
        id != index_name(),
        s1 == s0.remove(manifest_key_of(id)),
        same_except(s1, s2, manifest_index_key()),
        forall|keys: Set<Seq<char>>| #[trigger]
            index_lists(s1, manifest_index_key(), keys) ==> index_lists(s2, manifest_index_key(), keys.remove(id)),
        holds_manifest(s0, m),
    ensures
        holds_manifest(s2, m.remove(id)),
{
    let mi = manifest_index_key();
    lemma_prefixed_injective(manifest_prefix(), id, index_name());
    lemma_index_lists_agree(s0, s1, mi, m.dom());
    assert(index_lists(s2, mi, m.dom().remove(id)));
    assert(m.remove(id).dom() =~= m.dom().remove(id));
    assert forall|k: Seq<char>| #[trigger] m.remove(id).contains_key(k) implies s2.contains_key(manifest_key_of(k))
        && s2[manifest_key_of(k)] == record_bytes(m.remove(id)[k].0, m.remove(id)[k].1) by {
        lemma_prefixed_injective(manifest_prefix(), k, index_name());
        lemma_prefixed_injective(manifest_prefix(), k, id);
        assert(s1.remove(mi)[manifest_key_of(k)] == s1[manifest_key_of(k)]);
        assert(s2.remove(mi)[manifest_key_of(k)] == s2[manifest_key_of(k)]);
        assert(s1.remove(mi).contains_key(manifest_key_of(k)));
    }
}

/// Writing a positive count and listing its digest keeps the counts image, with the count set.
proof fn lemma_count_written(
    s0: Map<Seq<char>, Seq<u8>>,
    s1: Map<Seq<char>, Seq<u8>>,
    s2: Map<Seq<char>, Seq<u8>>,
    d: Seq<char>,
    c: u64,
    rc: Map<Seq<char>, u64>,
)
    requires
        is_digest_text(d),
        c > 0,
        s1 == s0.insert(refcount_key_of(d), decimal_bytes(c as nat)),
        same_except(s1, s2, refcount_index_key()),
        forall|keys: Set<Seq<char>>| #[trigger]
            index_lists(s1, refcount_index_key(), keys) ==> index_lists(s2, refcount_index_key(), keys.insert(d)),
        holds_counts(s0, rc),
    ensures
        holds_counts(s2, rc.insert(d, c)),
{
    let ri = refcount_index_key();
    lemma_prefixed_injective(refcount_prefix(), d, index_name());
    lemma_index_lists_agree(s0, s1, ri, rc.dom());
    assert(index_lists(s2, ri, rc.dom().insert(d)));
    assert(rc.insert(d, c).dom() =~= rc.dom().insert(d));
    assert forall|k: Seq<char>| #[trigger] rc.insert(d, c).contains_key(k) implies {
        &&& is_digest_text(k)
        &&& rc.insert(d, c)[k] > 0
        &&& s2.contains_key(refcount_key_of(k))
        &&& s2[refcount_key_of(k)] == decimal_bytes(rc.insert(d, c)[k] as nat)
    } by {
        lemma_prefixed_injective(refcount_prefix(), k, index_name());
        lemma_prefixed_injective(refcount_prefix(), k, d);
        assert(s1.remove(ri)[refcount_key_of(k)] == s1[refcount_key_of(k)]);
        assert(s2.remove(ri)[refcount_key_of(k)] == s2[refcount_key_of(k)]);
        assert(s1.remove(ri).contains_key(refcount_key_of(k)));
    }
}

/// Deleting a count and unlisting its digest keeps the counts image, with the digest gone.
proof fn lemma_count_removed(
    s0: Map<Seq<char>, Seq<u8>>,
    s1: Map<Seq<char>, Seq<u8>>,
    s2: Map<Seq<char>, Seq<u8>>,
    d: Seq<char>,
    rc: Map<Seq<char>, u64>,
)
    requires
        d != index_name(),
        s1 == s0.remove(refcount_key_of(d)),
        same_except(s1, s2, refcount_index_key()),
        forall|keys: Set<Seq<char>>| #[trigger]
            index_lists(s1, refcount_index_key(), keys) ==> index_lists(s2, refcount_index_key(), keys.remove(d)),
        holds_counts(s0, rc),
    ensures
        holds_counts(s2, rc.remove(d)),
{
    let ri = refcount_index_key();
    lemma_prefixed_injective(refcount_prefix(), d, index_name());
    lemma_index_lists_agree(s0, s1, ri, rc.dom());
    assert(index_lists(s2, ri, rc.dom().remove(d)));
    assert(rc.remove(d).dom() =~= rc.dom().remove(d));
    assert forall|k: Seq<char>| #[trigger] rc.remove(d).contains_key(k) implies {
        &&& is_digest_text(k)
        &&& rc.remove(d)[k] > 0
        &&& s2.contains_key(refcount_key_of(k))
        &&& s2[refcount_key_of(k)] == decimal_bytes(rc.remove(d)[k] as nat)
    } by {
        lemma_prefixed_injective(refcount_prefix(), k, index_name());
        lemma_prefixed_injective(refcount_prefix(), k, d);
        assert(s1.remove(ri)[refcount_key_of(k)] == s1[refcount_key_of(k)]);
        assert(s2.remove(ri)[refcount_key_of(k)] == s2[refcount_key_of(k)]);
        assert(s1.remove(ri).contains_key(refcount_key_of(k)));
    }
}

/// Persist the record of one file and list it in the manifest index.
pub fn save_manifest<B: ChunkBackend>(
    backend: &mut B,
    file_id: &str,
    digests: &[String],
    file_bytes: u64,
) -> (r: Result<(), ChunkStoreError>)
    ensures
        (*final(backend)).infallible() == (*old(backend)).infallible(),
        (*old(backend)).infallible() && r is Ok && indexes_readable((*old(backend)).stored()) ==> indexes_readable(
            (*final(backend)).stored(),
        ),
        (*old(backend)).infallible() ==> (r is Ok <==> (forall|i: int|
            0 <= i < digests@.len() ==> is_digest_text(#[trigger] digests@[i]@)) && list_readable(
            (*old(backend)).stored().insert(
                manifest_key_of(file_id@),
                record_bytes(strings_view(digests@), file_bytes),
            ),
            manifest_index_key(),
        )),
        (exists|i: int| 0 <= i < digests@.len() && !is_digest_text(#[trigger] digests@[i]@)) ==> (r matches Err(
            e,
        ) && e is InvalidArgument && (*final(backend)).stored() == (*old(backend)).stored()),
        r is Ok ==> blobs_same((*old(backend)).stored(), (*final(backend)).stored()),
        r is Ok ==> refcount_keys_same((*old(backend)).stored(), (*final(backend)).stored()),
        r is Ok && file_id@ != index_name() ==> forall|m: Map<Seq<char>, FileRecord>| #[trigger]
            holds_manifest((*old(backend)).stored(), m) ==> holds_manifest(
                (*final(backend)).stored(),
                m.insert(file_id@, (strings_view(digests@), file_bytes)),
            ),
        r is Ok ==> forall|i: int| 0 <= i < digests@.len() ==> is_digest_text(#[trigger] digests@[i]@),
        r is Ok ==> {
            let s1 = (*old(backend)).stored().insert(
                manifest_key_of(file_id@),
                record_bytes(strings_view(digests@), file_bytes),
            );
            exists|l: Seq<Seq<char>>|
                {
                    &&& #[trigger] list_read_as(s1, manifest_index_key(), l)
                    &&& if l.contains(file_id@) {
                        (*final(backend)).stored() == s1
                    } else {
                        (*final(backend)).stored() == s1.insert(
                            manifest_index_key(),
                            json_strings(l.push(file_id@)),
                        ) && json_strings(l.push(file_id@)).len() > 0
                    }
                }
        },
{
    let n = digests.len();
    let mut i: usize = 0;
    while i < n
        invariant
            n == digests@.len(),
            i <= n,
            forall|j: int| 0 <= j < i ==> is_digest_text(#[trigger] digests@[j]@),
            *backend == *old(backend),
        decreases n - i,
    {
        validate_digest(digests[i].as_str())?;
        i = i + 1;
    }
    let payload = match encode_manifest_record(digests, file_bytes) {
        Ok(p) => p,
        Err(e) => {
            let mut msg = String::from_str("manifest encode failed: ");
            msg.append(e.as_str());
            return Err(ChunkStoreError::backend(msg));
        },
    };
    // The record must read back as the list it was written from, every repeated
    // digest included, before it is stored.
    let reads_back = match decode_manifest_record(payload.as_slice()) {
        Ok((back, n)) => n == file_bytes && strings_equal(&back, digests),
        Err(_) => false,
    };
    if !reads_back {
        return Err(ChunkStoreError::backend(String::from_str("manifest record does not read back as written")));
    }
    let key = manifest_key(file_id);
    backend.put(key.as_str(), payload.as_slice())?;
    let ghost s1 = (*backend).stored();
    let index_key = manifest_index();
    proof {
        lemma_keys_are_meta(file_id@);
        lemma_keys_are_meta(index_name());
        lemma_meta_write((*old(backend)).stored(), key@, payload@);
    }
    let r = index_add(backend, index_key.as_str(), file_id);
    proof {
        if (*old(backend)).infallible() && r is Ok && indexes_readable((*old(backend)).stored()) {
            let s0 = (*old(backend)).stored();
            lemma_key_spaces(file_id@, index_name());
            lemma_list_readable_other_key(s0, refcount_index_key(), manifest_key_of(file_id@), payload@);
            lemma_index_keys_apart();
            lemma_list_readable_same_except(s1, (*backend).stored(), manifest_index_key(), refcount_index_key());
        }
    }
    proof {
        if r is Ok {
            let s0 = (*old(backend)).stored();
            let s2 = (*backend).stored();
            lemma_blobs_same_trans(s0, s1, s2);
            lemma_write_outside_counts(s0, key@, payload@);
            lemma_change_at_manifest_key(s1, s2, index_name());
            lemma_refcount_keys_same_trans(s0, s1, s2);
            if file_id@ != index_name() {
                assert forall|m: Map<Seq<char>, FileRecord>| #[trigger] holds_manifest(s0, m) implies holds_manifest(
                    s2,
                    m.insert(file_id@, (strings_view(digests@), file_bytes)),
                ) by {
                    lemma_manifest_record_written(s0, s1, s2, file_id@, (strings_view(digests@), file_bytes), m);
                }
            }
        }
    }
    r
}

/// Delete the record of one file and drop it from the manifest index.
pub fn remove_manifest<B: ChunkBackend>(backend: &mut B, file_id: &str) -> (r: Result<
    (),
    ChunkStoreError,
>)
    ensures
        (*final(backend)).infallible() == (*old(backend)).infallible(),
        (*old(backend)).infallible() && r is Ok && indexes_readable((*old(backend)).stored()) ==> indexes_readable(
            (*final(backend)).stored(),
        ),
        (*old(backend)).infallible() ==> (r is Ok <==> list_readable(
            (*old(backend)).stored().remove(manifest_key_of(file_id@)),
            manifest_index_key(),
        )),
        r is Ok ==> blobs_same((*old(backend)).stored(), (*final(backend)).stored()),
        r is Ok ==> refcount_keys_same((*old(backend)).stored(), (*final(backend)).stored()),
        r is Ok && file_id@ != index_name() ==> forall|m: Map<Seq<char>, FileRecord>| #[trigger]
            holds_manifest((*old(backend)).stored(), m) ==> holds_manifest((*final(backend)).stored(), m.remove(file_id@)),
        r is Ok ==> {
            let s1 = (*old(backend)).stored().remove(manifest_key_of(file_id@));
            exists|l: Seq<Seq<char>>|
                {
                    &&& #[trigger] list_read_as(s1, manifest_index_key(), l)
                    &&& (*final(backend)).stored() == s1.insert(
                        manifest_index_key(),
                        json_strings(list_without(l, file_id@)),
                    )
                    &&& json_strings(list_without(l, file_id@)).len() > 0
                }
        },
{
    let key = manifest_key(file_id);
    backend.delete(key.as_str())?;
    let ghost s1 = (*backend).stored();
    let index_key = manifest_index();
    proof {
        lemma_keys_are_meta(file_id@);
        lemma_keys_are_meta(index_name());
        lemma_meta_write((*old(backend)).stored(), key@, Seq::empty());
    }
    let r = index_remove(backend, index_key.as_str(), file_id);
    proof {
        if (*old(backend)).infallible() && r is Ok && indexes_readable((*old(backend)).stored()) {
            let s0 = (*old(backend)).stored();
            lemma_key_spaces(file_id@, index_name());
            lemma_list_readable_remove(s0, refcount_index_key(), manifest_key_of(file_id@));
            lemma_index_keys_apart();
            lemma_list_readable_same_except(s1, (*backend).stored(), manifest_index_key(), refcount_index_key());
        }
    }
    proof {
        if r is Ok {
            let s0 = (*old(backend)).stored();
            let s2 = (*backend).stored();
            lemma_blobs_same_trans(s0, s1, s2);
            lemma_write_outside_counts(s0, key@, Seq::empty());
            lemma_change_at_manifest_key(s1, s2, index_name());
            lemma_refcount_keys_same_trans(s0, s1, s2);
            if file_id@ != index_name() {
                assert forall|m: Map<Seq<char>, FileRecord>| #[trigger] holds_manifest(s0, m) implies holds_manifest(
                    s2,
                    m.remove(file_id@),
                ) by {
                    lemma_manifest_record_removed(s0, s1, s2, file_id@, m);
                }
            }
        }
    }
    r
}

/// Persist the reference count of one chunk and list it in the refcount index.
pub fn save_refcount<B: ChunkBackend>(backend: &mut B, digest: &str, count: u64) -> (r: Result<
    (),
    ChunkStoreError,
>)
    ensures
        (*final(backend)).infallible() == (*old(backend)).infallible(),
        (*old(backend)).infallible() && r is Ok && indexes_readable((*old(backend)).stored()) ==> indexes_readable(
            (*final(backend)).stored(),
        ),
        (*old(backend)).infallible() ==> (r is Ok <==> is_digest_text(digest@) && list_readable(
            (*old(backend)).stored().insert(refcount_key_of(digest@), decimal_bytes(count as nat)),
            refcount_index_key(),
        )),
        r is Ok ==> blobs_same((*old(backend)).stored(), (*final(backend)).stored()),
        r is Ok ==> manifest_keys_same((*old(backend)).stored(), (*final(backend)).stored()),
        r is Ok && count > 0 ==> forall|rc: Map<Seq<char>, u64>| #[trigger]
            holds_counts((*old(backend)).stored(), rc) ==> holds_counts(
                (*final(backend)).stored(),
                rc.insert(digest@, count),
            ),
        !is_digest_text(digest@) ==> (r matches Err(e) && e is InvalidArgument),
        !is_digest_text(digest@) ==> (*final(backend)).stored() == (*old(backend)).stored(),
        r is Ok ==> is_digest_text(digest@),
        r is Ok ==> {
            let s1 = (*old(backend)).stored().insert(refcount_key_of(digest@), decimal_bytes(count as nat));
            exists|l: Seq<Seq<char>>|
                {
                    &&& #[trigger] list_read_as(s1, refcount_index_key(), l)
                    &&& if l.contains(digest@) {
                        (*final(backend)).stored() == s1
                    } else {
                        (*final(backend)).stored() == s1.insert(
                            refcount_index_key(),
                            json_strings(l.push(digest@)),
                        ) && json_strings(l.push(digest@)).len() > 0
                    }
                }
        },
{
    validate_digest(digest)?;
    let payload = encode_u64(count);
    let key = refcount_key(digest);
    backend.put(key.as_str(), payload.as_slice())?;
    let ghost s1 = (*backend).stored();
    let index_key = refcount_index();
    proof {
        lemma_keys_are_meta(digest@);
        lemma_keys_are_meta(index_name());
        lemma_meta_write((*old(backend)).stored(), key@, payload@);
    }
    let r = index_add(backend, index_key.as_str(), digest);
    proof {
        if (*old(backend)).infallible() && r is Ok && indexes_readable((*old(backend)).stored()) {
            let s0 = (*old(backend)).stored();
            lemma_key_spaces(index_name(), digest@);
            lemma_list_readable_other_key(s0, manifest_index_key(), refcount_key_of(digest@), payload@);
            lemma_index_keys_apart();
            lemma_list_readable_same_except(s1, (*backend).stored(), refcount_index_key(), manifest_index_key());
        }
    }
    proof {
        if r is Ok {
            let s0 = (*old(backend)).stored();
            let s2 = (*backend).stored();
            lemma_blobs_same_trans(s0, s1, s2);
            lemma_write_outside_manifest(s0, key@, payload@);
            lemma_change_at_refcount_key(s1, s2, index_name());
            lemma_manifest_keys_same_trans(s0, s1, s2);
            if count > 0 {
                assert forall|rc: Map<Seq<char>, u64>| #[trigger] holds_counts(s0, rc) implies holds_counts(
                    s2,
                    rc.insert(digest@, count),
                ) by {
                    lemma_count_written(s0, s1, s2, digest@, count, rc);
                }
            }
        }
    }
    r
}

/// Delete the reference count of one chunk and drop it from the refcount index.
pub fn remove_refcount<B: ChunkBackend>(backend: &mut B, digest: &str) -> (r: Result<
    (),
    ChunkStoreError,
>)
    ensures
        (*final(backend)).infallible() == (*old(backend)).infallible(),
        (*old(backend)).infallible() && r is Ok && indexes_readable((*old(backend)).stored()) ==> indexes_readable(
            (*final(backend)).stored(),
        ),
        (*old(backend)).infallible() ==> (r is Ok <==> list_readable(
            (*old(backend)).stored().remove(refcount_key_of(digest@)),
            refcount_index_key(),
        )),
        r is Ok ==> blobs_same((*old(backend)).stored(), (*final(backend)).stored()),
        r is Ok ==> manifest_keys_same((*old(backend)).stored(), (*final(backend)).stored()),
        r is Ok && digest@ != index_name() ==> forall|rc: Map<Seq<char>, u64>| #[trigger]
            holds_counts((*old(backend)).stored(), rc) ==> holds_counts((*final(backend)).stored(), rc.remove(digest@)),
        r is Ok ==> {
            let s1 = (*old(backend)).stored().remove(refcount_key_of(digest@));
            exists|l: Seq<Seq<char>>|
                {
                    &&& #[trigger] list_read_as(s1, refcount_index_key(), l)
                    &&& (*final(backend)).stored() == s1.insert(
                        refcount_index_key(),
                        json_strings(list_without(l, digest@)),
                    )
                    &&& json_strings(list_without(l, digest@)).len() > 0
                }
        },
{
    let key = refcount_key(digest);
    backend.delete(key.as_str())?;
    let ghost s1 = (*backend).stored();
    let index_key = refcount_index();
    proof {
        lemma_keys_are_meta(digest@);
        lemma_keys_are_meta(index_name());
        lemma_meta_write((*old(backend)).stored(), key@, Seq::empty());
    }
    let r = index_remove(backend, index_key.as_str(), digest);
    proof {
        if (*old(backend)).infallible() && r is Ok && indexes_readable((*old(backend)).stored()) {
            let s0 = (*old(backend)).stored();
            lemma_key_spaces(index_name(), digest@);
            lemma_list_readable_remove(s0, manifest_index_key(), refcount_key_of(digest@));
            lemma_index_keys_apart();
            lemma_list_readable_same_except(s1, (*backend).stored(), refcount_index_key(), manifest_index_key());
        }
    }
    proof {
        if r is Ok {
            let s0 = (*old(backend)).stored();
            let s2 = (*backend).stored();
            lemma_blobs_same_trans(s0, s1, s2);
            lemma_write_outside_manifest(s0, key@, Seq::empty());
            lemma_change_at_refcount_key(s1, s2, index_name());
            lemma_manifest_keys_same_trans(s0, s1, s2);
            if digest@ != index_name() {
                assert forall|rc: Map<Seq<char>, u64>| #[trigger] holds_counts(s0, rc) implies holds_counts(
                    s2,
                    rc.remove(digest@),
                ) by {
                    lemma_count_removed(s0, s1, s2, digest@, rc);
                }
            }
        }
    }
    r
}

/// Every digest of every file of the manifest is a digest text.
pub open spec fn manifest_digests_valid(m: Map<Seq<char>, (Seq<Seq<char>>, u64)>) -> bool {
    forall|k: Seq<char>, i: int|
        m.contains_key(k) && 0 <= i < m[k].0.len() ==> is_digest_text(#[trigger] m[k].0[i])
}

/// `mm` is a manifest that the backend holds and that loads back: every digest
/// is a digest text and no file ID is empty.
pub open spec fn manifest_loads(s: Map<Seq<char>, Seq<u8>>, mm: Map<Seq<char>, FileRecord>) -> bool {
    &&& holds_manifest(s, mm)
    &&& manifest_digests_valid(mm)
    &&& !mm.contains_key(Seq::<char>::empty())
}

/// Load the manifest from the records that the manifest index lists.
#[verifier::spinoff_prover]
pub fn load_manifests<B: ChunkBackend>(backend: &B) -> (r: Result<Manifest, ChunkStoreError>)
    ensures
        backend.infallible() ==> forall|mm: Map<Seq<char>, FileRecord>| #[trigger]
            manifest_loads(backend.stored(), mm) ==> r is Ok,
        r matches Ok(m) ==> forall|mm: Map<Seq<char>, FileRecord>| #[trigger]
            holds_manifest(backend.stored(), mm) ==> m@ == mm,
        r matches Ok(m) ==> {
            &&& m.wf()
            &&& manifest_digests_valid(m@)
            &&& !m@.contains_key(Seq::<char>::empty())
            &&& exists|l: Seq<Seq<char>>|
                {
                    &&& #[trigger] list_read_as(backend.stored(), manifest_index_key(), l)
                    &&& forall|k: Seq<char>| m@.contains_key(k) <==> l.contains(k)
                }
            &&& forall|k: Seq<char>| #[trigger]
                m@.contains_key(k) ==> {
                    &&& backend.stored().contains_key(manifest_key_of(k))
                    &&& forall|ds: Seq<Seq<char>>, n: u64|
                        backend.stored()[manifest_key_of(k)] == #[trigger] record_bytes(ds, n) ==> m@[k]
                            == (ds, n)
                }
        },
{
    let ghost s = backend.stored();
    let ghost good = backend.infallible() && exists|mm: Map<Seq<char>, FileRecord>| #[trigger]
        manifest_loads(s, mm);
    let ghost mm = choose|mm: Map<Seq<char>, FileRecord>| #[trigger] manifest_loads(s, mm);
    let index_key = manifest_index();
    proof {
        if good {
            lemma_index_lists_readable(s, manifest_index_key(), mm.dom());
        }
    }
    let index = read_string_list(backend, index_key.as_str())?;
    let ghost l = strings_view(index@);
    let mut manifest = Manifest::new();
    let n = index.len();
    let mut i: usize = 0;
    while i < n
        invariant
            n == index@.len(),
            l == strings_view(index@),
            s == backend.stored(),
            i <= n,
            manifest.wf(),
            manifest_digests_valid(manifest@),
            !manifest@.contains_key(Seq::<char>::empty()),
            good == (backend.infallible() && exists|mm: Map<Seq<char>, FileRecord>| #[trigger]
                manifest_loads(s, mm)),
            good ==> manifest_loads(s, mm) && l.to_set() == mm.dom(),
            forall|k: Seq<char>| manifest@.contains_key(k) <==> l.take(i as int).contains(k),
            forall|k: Seq<char>| #[trigger]
                manifest@.contains_key(k) ==> {
                    &&& s.contains_key(manifest_key_of(k))
                    &&& forall|ds: Seq<Seq<char>>, n: u64|
                        s[manifest_key_of(k)] == #[trigger] record_bytes(ds, n) ==> manifest@[k] == (ds, n)
                },
        decreases n - i,
    {
        let file_id = index[i].as_str();
        let key = manifest_key(file_id);
        proof {
            if good {
                assert(l[i as int] == file_id@);
                assert(l.to_set().contains(file_id@));
                assert(mm.contains_key(file_id@));
            }
        }
        let raw = match backend.get(key.as_str())? {
            Some(raw) => raw,
            None => {
                let mut msg = String::from_str("missing manifest key ");
                msg.append(key.as_str());
                return Err(ChunkStoreError::backend(msg));
            },
        };
        let (digests, file_bytes) = match decode_manifest_record(raw.as_slice()) {
            Ok(rec) => rec,
            Err(e) => {
                let mut msg = String::from_str("invalid manifest JSON for ");
                msg.append(file_id);
                msg.append(": ");
                msg.append(e.as_str());
                return Err(ChunkStoreError::backend(msg));
            },
        };
        let ghost rec = if good { mm[file_id@] } else { (Seq::empty(), 0) };
        proof {
            if good {
                assert(raw@ == record_bytes(rec.0, rec.1));
            }
        }
        let dn = digests.len();
        let mut j: usize = 0;
        while j < dn
            invariant
                dn == digests@.len(),
                j <= dn,
                s == backend.stored(),
                good == (backend.infallible() && exists|mm: Map<Seq<char>, FileRecord>| #[trigger]
                    manifest_loads(s, mm)),
                good ==> mm.contains_key(file_id@) && rec == mm[file_id@] && strings_view(digests@) == rec.0
                    && manifest_digests_valid(mm),
                forall|q: int| 0 <= q < j ==> is_digest_text(#[trigger] digests@[q]@),
            decreases dn - j,
        {
            proof {
                if good {
                    assert(digests@[j as int]@ == rec.0[j as int]);
                }
            }
            validate_digest(digests[j].as_str())?;
            j = j + 1;
        }
        let ghost before = manifest@;
        let ghost dv = strings_view(digests@);
        proof {
            if good && file_id@.len() == 0 {
                assert(file_id@ =~= Seq::<char>::empty());
            }
        }
        manifest.insert(file_id, digests, file_bytes)?;
        proof {
            assert(file_id@.len() > 0);
            assert(file_id@ != Seq::<char>::empty());
        }
        proof {
            assert(l.take(i + 1) =~= l.take(i as int).push(file_id@));
            assert forall|k: Seq<char>| manifest@.contains_key(k) <==> l.take(i + 1).contains(k) by {
                if k == file_id@ {
                    assert(l.take(i + 1)[i as int] == k);
                } else if l.take(i + 1).contains(k) {
                    let q = choose|q: int| 0 <= q < l.take(i + 1).len() && #[trigger] l.take(i + 1)[q] == k;
                    assert(l.take(i as int)[q] == k);
                } else if l.take(i as int).contains(k) {
                    let q = choose|q: int| 0 <= q < l.take(i as int).len() && #[trigger] l.take(i as int)[q] == k;
                    assert(l.take(i + 1)[q] == k);
                }
            }
            assert forall|k: Seq<char>, q: int|
                manifest@.contains_key(k) && 0 <= q < manifest@[k].0.len() implies is_digest_text(
                #[trigger] manifest@[k].0[q],
            ) by {
                if k == file_id@ {
                    assert(manifest@[k].0[q] == digests@[q]@);
                } else {
                    assert(before.contains_key(k));
                }
            }
        }
        i = i + 1;
    }
    proof {
        assert(l.take(n as int) =~= l);
        assert(list_read_as(backend.stored(), manifest_index_key(), l));
        assert forall|mm: Map<Seq<char>, FileRecord>| #[trigger] holds_manifest(s, mm) implies manifest@ == mm by {
            assert(l.to_set() == mm.dom());
            assert forall|k: Seq<char>|
                #![trigger manifest@.contains_key(k)]
                #![trigger mm.contains_key(k)]
                manifest@.contains_key(k) <==> mm.contains_key(k) by {
                assert(l.to_set().contains(k) == l.contains(k));
            }
            assert forall|k: Seq<char>|
                #![trigger manifest@[k]]
                #![trigger mm[k]]
                mm.contains_key(k) implies manifest@[k] == mm[k] by {
                assert(manifest@.contains_key(k));
                assert(s[manifest_key_of(k)] == record_bytes(mm[k].0, mm[k].1));
            }
            assert(manifest@ =~= mm);
        }
    }
    Ok(manifest)
}

/// The list under an index key as a load reads it: empty when the key is absent.
pub open spec fn index_list(s: Map<Seq<char>, Seq<u8>>, key: Seq<char>) -> Seq<Seq<char>> {
    if s.contains_key(key) {
        match json_strings_value(s[key]) {
            Some(l) => l,
            None => Seq::empty(),
        }
    } else {
        Seq::empty()
    }
}

/// The count stored for a digest, 0 where none reads.
pub open spec fn count_value(s: Map<Seq<char>, Seq<u8>>, d: Seq<char>) -> u64 {
    match json_u64_value(s[refcount_key_of(d)]) {
        Some(n) => n,
        None => 0,
    }
}

/// The reference counts a backend holds: the positive counts of the digests
/// its refcount index lists.
pub open spec fn persisted_counts(s: Map<Seq<char>, Seq<u8>>) -> Map<Seq<char>, u64> {
    Map::new(
        |d: Seq<char>| index_list(s, refcount_index_key()).contains(d) && count_value(s, d) > 0,
        |d: Seq<char>| count_value(s, d),
    )
}

/// Load the reference counts that the refcount index lists; zero counts are skipped.
#[verifier::spinoff_prover]
pub fn load_refcounts<B: ChunkBackend>(backend: &B) -> (r: Result<RefCount, ChunkStoreError>)
    ensures
        backend.infallible() ==> forall|cc: Map<Seq<char>, u64>| #[trigger]
            holds_counts(backend.stored(), cc) ==> r is Ok,
        r matches Ok(rc) ==> forall|cc: Map<Seq<char>, u64>| #[trigger]
            holds_counts(backend.stored(), cc) ==> rc@ == cc,
        r matches Ok(rc) ==> {
            &&& rc.wf()
            &&& rc@ == persisted_counts(backend.stored()) || rc@ == Map::<Seq<char>, u64>::empty()
            &&& exists|l: Seq<Seq<char>>|
                {
                    &&& #[trigger] list_read_as(backend.stored(), refcount_index_key(), l)
                    &&& forall|k: Seq<char>| rc@.contains_key(k) ==> l.contains(k)
                    &&& forall|k: Seq<char>|
                        #![trigger l.contains(k)]
                        l.contains(k) ==> {
                            &&& is_digest_text(k)
                            &&& backend.stored().contains_key(refcount_key_of(k))
                            &&& forall|n: u64|
                                backend.stored()[refcount_key_of(k)] == #[trigger] decimal_bytes(n as nat)
                                    ==> (rc@.contains_key(k) <==> n > 0)
                        }
                }
            &&& forall|k: Seq<char>| #[trigger]
                rc@.contains_key(k) ==> forall|n: u64|
                    backend.stored()[refcount_key_of(k)] == #[trigger] decimal_bytes(n as nat) ==> rc@[k]
                        == n
        },
{
    let ghost s = backend.stored();
    let ghost good = backend.infallible() && exists|cc: Map<Seq<char>, u64>| #[trigger] holds_counts(s, cc);
    let ghost cc = choose|cc: Map<Seq<char>, u64>| #[trigger] holds_counts(s, cc);
    let index_key = refcount_index();
    proof {
        if good {
            lemma_index_lists_readable(s, refcount_index_key(), cc.dom());
        }
    }
    let index = read_string_list(backend, index_key.as_str())?;
    let ghost l = strings_view(index@);
    let mut refcount = RefCount::new();
    let n = index.len();
    let mut i: usize = 0;
    proof {
        assert(refcount@ =~= Map::new(
            |d: Seq<char>| l.take(0).contains(d) && count_value(s, d) > 0,
            |d: Seq<char>| count_value(s, d),
        ));
    }
    while i < n
        invariant
            n == index@.len(),
            l == strings_view(index@),
            s == backend.stored(),
            i <= n,
            refcount.wf(),
            good == (backend.infallible() && exists|cc: Map<Seq<char>, u64>| #[trigger] holds_counts(s, cc)),
            good ==> holds_counts(s, cc) && l.to_set() == cc.dom(),
            forall|k: Seq<char>| refcount@.contains_key(k) ==> l.take(i as int).contains(k),
            forall|k: Seq<char>|
                #![trigger l.take(i as int).contains(k)]
                l.take(i as int).contains(k) ==> {
                    &&& is_digest_text(k)
                    &&& s.contains_key(refcount_key_of(k))
                    &&& forall|n: u64|
                        s[refcount_key_of(k)] == #[trigger] decimal_bytes(n as nat) ==> (
                        refcount@.contains_key(k) <==> n > 0)
                },
            forall|k: Seq<char>| #[trigger]
                refcount@.contains_key(k) ==> forall|n: u64|
                    s[refcount_key_of(k)] == #[trigger] decimal_bytes(n as nat) ==> refcount@[k] == n,
            list_read_as(s, refcount_index_key(), l),
            refcount@ == Map::new(
                |d: Seq<char>| l.take(i as int).contains(d) && count_value(s, d) > 0,
                |d: Seq<char>| count_value(s, d),
            ),
        decreases n - i,
    {
        let digest = index[i].as_str();
        proof {
            if good {
                assert(l[i as int] == digest@);
                assert(l.to_set().contains(digest@));
                assert(cc.contains_key(digest@));
            }
        }
        validate_digest(digest)?;
        let key = refcount_key(digest);
        let raw = match backend.get(key.as_str())? {
            Some(raw) => raw,
            None => {
                let mut msg = String::from_str("missing refcount key ");
                msg.append(key.as_str());
                return Err(ChunkStoreError::backend(msg));
            },
        };
        let count = match decode_u64(raw.as_slice()) {
            Ok(c) => c,
            Err(e) => {
                let mut msg = String::from_str("invalid refcount JSON for ");
                msg.append(digest);
                msg.append(": ");
                msg.append(e.as_str());
                return Err(ChunkStoreError::backend(msg));
            },
        };
        let ghost before = refcount@;
        if count > 0 {
            refcount.set(digest, count);
        }
        proof {
            assert(l.take(i + 1) =~= l.take(i as int).push(digest@));
            assert forall|k: Seq<char>| l.take(i + 1).contains(k) implies l.take(i as int).contains(k)
                || k == digest@ by {
                let q = choose|q: int| 0 <= q < l.take(i + 1).len() && #[trigger] l.take(i + 1)[q] == k;
                if q < i {
                    assert(l.take(i as int)[q] == k);
                }
            }
            assert forall|k: Seq<char>| l.take(i as int).contains(k) implies l.take(i + 1).contains(k) by {
                let q = choose|q: int| 0 <= q < l.take(i as int).len() && #[trigger] l.take(i as int)[q] == k;
                assert(l.take(i + 1)[q] == k);
            }
            assert(l.take(i + 1)[i as int] == digest@);
            assert(raw@ == s[refcount_key_of(digest@)]);
            assert forall|m: u64| s[refcount_key_of(digest@)] == #[trigger] decimal_bytes(m as nat) implies (
            refcount@.contains_key(digest@) <==> m > 0) by {
                assert(count == m);
            }
            assert(count_value(s, digest@) == count);
            assert(refcount@ =~= Map::new(
                |d: Seq<char>| l.take(i + 1).contains(d) && count_value(s, d) > 0,
                |d: Seq<char>| count_value(s, d),
            ));
            assert forall|k: Seq<char>|
                #![trigger l.take(i + 1).contains(k)]
                l.take(i + 1).contains(k) implies {
                    &&& is_digest_text(k)
                    &&& s.contains_key(refcount_key_of(k))
                    &&& forall|m: u64|
                        s[refcount_key_of(k)] == #[trigger] decimal_bytes(m as nat) ==> (
                        refcount@.contains_key(k) <==> m > 0)
                } by {
                if k != digest@ {
                    assert(l.take(i as int).contains(k));
                    assert(refcount@.contains_key(k) == before.contains_key(k));
                }
            }
        }
        i = i + 1;
    }
    proof {
        assert(l.take(n as int) =~= l);
        assert(list_read_as(backend.stored(), refcount_index_key(), l));
        assert forall|cc: Map<Seq<char>, u64>| #[trigger] holds_counts(s, cc) implies refcount@ == cc by {
            assert(l.to_set() == cc.dom());
            assert forall|k: Seq<char>|
                #![trigger refcount@.contains_key(k)]
                #![trigger cc.contains_key(k)]
                refcount@.contains_key(k) <==> cc.contains_key(k) by {
                assert(l.to_set().contains(k) == l.contains(k));
                if cc.contains_key(k) {
                    assert(s[refcount_key_of(k)] == decimal_bytes(cc[k] as nat));
                }
            }
            assert forall|k: Seq<char>|
                #![trigger refcount@[k]]
                #![trigger cc[k]]
                cc.contains_key(k) implies refcount@[k] == cc[k] by {
                assert(l.to_set().contains(k) == l.contains(k));
                assert(s[refcount_key_of(k)] == decimal_bytes(cc[k] as nat));
            }
            assert(refcount@ =~= cc);
        }
        if l == index_list(s, refcount_index_key()) {
            assert(refcount@ =~= persisted_counts(s));
        } else {
            assert(l.len() == 0);
            assert(refcount@ =~= Map::<Seq<char>, u64>::empty());
        }
    }
    Ok(refcount)
}

} // verus!
