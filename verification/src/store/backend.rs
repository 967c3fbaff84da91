use vstd::hash_map::StringHashMap;
use vstd::prelude::*;

use crate::error::ChunkStoreError;

verus! {

/// Key-value backend for chunk blobs and metadata persistence.
///
/// A backend stands for a map from keys to byte strings. An implementation
/// must make every successful call behave on that map as stated here; a call
/// that fails may leave the map in any state. Writes take `&mut self`.
pub trait ChunkBackend {
    /// The bytes stored under each key. An implementation written outside Verus
    /// keeps this default: the contracts of its calls are then trusted, not
    /// checked, to hold of the bytes it really holds.
    closed spec fn stored(&self) -> Map<Seq<char>, Seq<u8>> {
        vstd::pervasive::arbitrary()
    }

    /// Every call succeeds, and `get` finds every stored key, empty values
    /// included. An implementation written outside Verus keeps this default,
    /// which promises no success.
    closed spec fn infallible(&self) -> bool {
        false
    }

    /// The bytes stored under `key`, if any. An empty value may read back as `None`.
    fn get(&self, key: &str) -> (r: Result<Option<Vec<u8>>, ChunkStoreError>)
        ensures
            r matches Ok(v) ==> match v {
                Some(bytes) => self.stored().contains_key(key@) && bytes@ == self.stored()[key@],
                None => !self.stored().contains_key(key@) || self.stored()[key@].len() == 0,
            },
            self.infallible() ==> (r matches Ok(v) && (v is Some <==> self.stored().contains_key(key@))),
    ;

    /// Store `data` under `key`, replacing what was there.
    fn put(&mut self, key: &str, data: &[u8]) -> (r: Result<(), ChunkStoreError>)
        ensures
            r is Ok ==> final(self).stored() == old(self).stored().insert(key@, data@),
            old(self).infallible() ==> r is Ok,
            final(self).infallible() == old(self).infallible(),
    ;

    /// Whether anything is stored under `key`.
    fn key_exists(&self, key: &str) -> (r: Result<bool, ChunkStoreError>)
        ensures
            r matches Ok(b) ==> b == self.stored().contains_key(key@),
            self.infallible() ==> r is Ok,
    ;

    /// Remove what is stored under `key`, if anything.
    fn delete(&mut self, key: &str) -> (r: Result<(), ChunkStoreError>)
        ensures
            r is Ok ==> final(self).stored() == old(self).stored().remove(key@),
            old(self).infallible() ==> r is Ok,
            final(self).infallible() == old(self).infallible(),
    ;
}

impl<'a, B: ChunkBackend> ChunkBackend for &'a mut B {
    open spec fn stored(&self) -> Map<Seq<char>, Seq<u8>> {
        (**self).stored()
    }

    open spec fn infallible(&self) -> bool {
        (**self).infallible()
    }

    fn get(&self, key: &str) -> (r: Result<Option<Vec<u8>>, ChunkStoreError>) {
        (**self).get(key)
    }

    fn put(&mut self, key: &str, data: &[u8]) -> (r: Result<(), ChunkStoreError>) {
        (**self).put(key, data)
    }

    fn key_exists(&self, key: &str) -> (r: Result<bool, ChunkStoreError>) {
        (**self).key_exists(key)
    }

    fn delete(&mut self, key: &str) -> (r: Result<(), ChunkStoreError>) {
        (**self).delete(key)
    }
}

/// In-memory backend for unit tests.
pub struct MemoryBackend {
    data: StringHashMap<Vec<u8>>,
}

impl Default for MemoryBackend {
    fn default() -> (b: Self)
        ensures
            b.contents() == Map::<Seq<char>, Seq<u8>>::empty(),
    {
        MemoryBackend::new()
    }
}

impl MemoryBackend {
    /// The bytes stored under each key.
    pub closed spec fn contents(&self) -> Map<Seq<char>, Seq<u8>> {
        self.data@.map_values(|v: Vec<u8>| v@)
    }

    pub fn new() -> (b: Self)
        ensures
            b.contents() == Map::<Seq<char>, Seq<u8>>::empty(),
    {
        let b = MemoryBackend { data: StringHashMap::new() };
        proof {
            assert(b.contents() =~= Map::<Seq<char>, Seq<u8>>::empty());
        }
        b
    }

    /// Number of stored keys (chunks + metadata).
    pub fn key_count(&self) -> (r: Result<usize, ChunkStoreError>)
        ensures
            r matches Ok(n) && n == self.contents().len(),
    {
        proof {
            broadcast use vstd::hash_map::group_hash_map_axioms;
            assert(self.contents().dom() =~= self.data@.dom());
        }
        Ok(self.data.len())
    }

    pub fn contains_key(&self, key: &str) -> (r: Result<bool, ChunkStoreError>)
        ensures
            r matches Ok(b) && b == self.contents().contains_key(key@),
    {
        Ok(self.data.contains_key(key))
    }
}

impl ChunkBackend for MemoryBackend {
    open spec fn stored(&self) -> Map<Seq<char>, Seq<u8>> {
        self.contents()
    }

    open spec fn infallible(&self) -> bool {
        true
    }

    fn get(&self, key: &str) -> (r: Result<Option<Vec<u8>>, ChunkStoreError>)
        ensures
            r matches Ok(v) && match v {
                Some(bytes) => self.stored().contains_key(key@) && bytes@ == self.stored()[key@],
                None => !self.stored().contains_key(key@),
            },
    {
        match self.data.get(key) {
            Some(v) => Ok(Some(v.clone())),
            None => Ok(None),
        }
    }

    fn put(&mut self, key: &str, data: &[u8]) -> (r: Result<(), ChunkStoreError>)
        ensures
            r is Ok,
    {
        let k = key.to_owned();
        let v = vstd::slice::slice_to_vec(data);
        self.data.insert(k, v);
        proof {
            assert(self.contents() =~= old(self).contents().insert(key@, data@));
        }
        Ok(())
    }

    fn key_exists(&self, key: &str) -> (r: Result<bool, ChunkStoreError>)
        ensures
            r is Ok,
    {
        Ok(self.data.contains_key(key))
    }

    fn delete(&mut self, key: &str) -> (r: Result<(), ChunkStoreError>)
        ensures
            r is Ok,
    {
        self.data.remove(key);
        proof {
            assert(self.contents() =~= old(self).contents().remove(key@));
        }
        Ok(())
    }
}

} // verus!
