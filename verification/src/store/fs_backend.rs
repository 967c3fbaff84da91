//! The key rules of the filesystem backend. The backend itself, which reads and
//! writes files, lives outside the verified library; it maps a key to a path
//! below its root only after [`check_backend_key`] accepts the key.
use vstd::prelude::*;
use vstd::string::{StrSliceExecFns, StringExecFns};

use crate::error::ChunkStoreError;
use crate::store::persistence::{is_digest_text, validate_digest};

verus! {

/// The `/`-separated segment of `k` from `i` to `j` is `..`.
pub open spec fn parent_segment_at(k: Seq<char>, i: int, j: int) -> bool {
    &&& 0 <= i
    &&& j == i + 2
    &&& j <= k.len()
    &&& k[i] == '.'
    &&& k[i + 1] == '.'
    &&& (i == 0 || k[i - 1] == '/')
    &&& (j == k.len() || k[j] == '/')
}

/// A key the filesystem backend accepts: not empty, no backslash, not absolute,
/// and no `..` segment, so that its path stays below the backend's root.
pub open spec fn is_backend_key(k: Seq<char>) -> bool {
    &&& k.len() > 0
    &&& forall|i: int| 0 <= i < k.len() ==> #[trigger] k[i] != '\\'
    &&& k[0] != '/'
    &&& forall|i: int| !#[trigger] parent_segment_at(k, i, i + 2)
}

/// Check that a key names a path below the backend's root.
pub fn check_backend_key(key: &str) -> (r: Result<(), ChunkStoreError>)
    ensures
        r is Ok <==> is_backend_key(key@),
        r matches Err(e) ==> e is InvalidArgument,
{
    let n = key.unicode_len();
    if n == 0 {
        return Err(ChunkStoreError::invalid_argument(String::from_str("key cannot be empty")));
    }
    let mut i: usize = 0;
    while i < n
        invariant
            n == key@.len(),
            i <= n,
            forall|j: int| 0 <= j < i ==> #[trigger] key@[j] != '\\',
        decreases n - i,
    {
        if key.get_char(i) == '\\' {
            return Err(
                ChunkStoreError::invalid_argument(String::from_str("key cannot contain backslashes")),
            );
        }
        i = i + 1;
    }
    let mut bad = key.get_char(0) == '/';
    let mut i: usize = 0;
    while i < n - 1
        invariant
            n == key@.len(),
            n > 0,
            i <= n,
            bad == (key@[0] == '/' || exists|j: int| 0 <= j < i && #[trigger] parent_segment_at(key@, j, j + 2)),
        decreases n - i,
    {
        let at_start = i == 0 || key.get_char(i - 1) == '/';
        let at_end = i + 2 == n || key.get_char(i + 2) == '/';
        let here = at_start && at_end && key.get_char(i) == '.' && key.get_char(i + 1) == '.';
        proof {
            assert(here == parent_segment_at(key@, i as int, i + 2));
        }
        bad = bad || here;
        i = i + 1;
    }
    proof {
        assert forall|j: int| #![trigger parent_segment_at(key@, j, j + 2)] !bad implies !parent_segment_at(key@, j, j + 2) by {
            if parent_segment_at(key@, j, j + 2) {
                assert(j < i);
            }
        }
    }
    if bad {
        let mut msg = String::from_str("invalid key path component in ");
        msg.append(key);
        return Err(ChunkStoreError::invalid_argument(msg));
    }
    Ok(())
}

/// Whether a file name is a chunk blob's name: 64 hex digits.
pub fn is_chunk_digest(name: &str) -> (r: bool)
    ensures
        r == is_digest_text(name@),
{
    validate_digest(name).is_ok()
}

} // verus!
