use vstd::prelude::*;

verus! {

/// Dedup statistics tracked by the store.
#[derive(Debug, Clone, PartialEq, Eq, Structural)]
pub struct Stats {
    pub total_bytes: u64,
    pub stored_bytes: u64,
}

impl Default for Stats {
    fn default() -> (s: Self)
        ensures
            s.total_bytes == 0,
            s.stored_bytes == 0,
    {
        Stats { total_bytes: 0, stored_bytes: 0 }
    }
}

/// `a - b`, or 0 where `b > a`.
pub open spec fn sat_sub(a: u64, b: u64) -> u64 {
    if a >= b {
        (a - b) as u64
    } else {
        0
    }
}

impl Stats {
    /// The statistics after one more reference of `size` bytes.
    pub open spec fn with_reference(self, size: u64) -> Stats {
        Stats { total_bytes: (self.total_bytes + size) as u64, stored_bytes: self.stored_bytes }
    }

    /// The statistics after one more stored chunk of `size` bytes.
    pub open spec fn with_unique_chunk(self, size: u64) -> Stats {
        Stats {
            total_bytes: (self.total_bytes + size) as u64,
            stored_bytes: (self.stored_bytes + size) as u64,
        }
    }

    /// The statistics after one reference of `size` bytes less.
    pub open spec fn without_reference(self, size: u64) -> Stats {
        Stats { total_bytes: sat_sub(self.total_bytes, size), stored_bytes: self.stored_bytes }
    }

    /// The statistics after one stored chunk of `size` bytes less.
    pub open spec fn without_unique_chunk(self, size: u64) -> Stats {
        Stats { total_bytes: self.total_bytes, stored_bytes: sat_sub(self.stored_bytes, size) }
    }

    pub fn add_reference(&mut self, size: u64)
        requires
            old(self).total_bytes + size <= u64::MAX,
        ensures
            *final(self) == old(self).with_reference(size),
    {
        self.total_bytes = self.total_bytes + size;
    }

    pub fn add_unique_chunk(&mut self, size: u64)
        requires
            old(self).total_bytes + size <= u64::MAX,
            old(self).stored_bytes + size <= u64::MAX,
        ensures
            *final(self) == old(self).with_unique_chunk(size),
    {
        self.total_bytes = self.total_bytes + size;
        self.stored_bytes = self.stored_bytes + size;
    }

    pub fn remove_reference(&mut self, size: u64)
        ensures
            *final(self) == old(self).without_reference(size),
    {
        self.total_bytes = self.total_bytes.saturating_sub(size);
    }

    pub fn remove_unique_chunk(&mut self, size: u64)
        ensures
            *final(self) == old(self).without_unique_chunk(size),
    {
        self.stored_bytes = self.stored_bytes.saturating_sub(size);
    }
}

/// Removing a reference undoes adding one of the same size.
pub proof fn lemma_reference_round_trip(s: Stats, size: u64)
    requires
        s.total_bytes + size <= u64::MAX,
    ensures
        s.with_reference(size).without_reference(size) == s,
{
}

/// Removing a stored chunk and its reference undoes adding it.
pub proof fn lemma_unique_chunk_round_trip(s: Stats, size: u64)
    requires
        s.total_bytes + size <= u64::MAX,
        s.stored_bytes + size <= u64::MAX,
    ensures
        s.with_unique_chunk(size).without_unique_chunk(size).without_reference(size) == s,
{
}

} // verus!
