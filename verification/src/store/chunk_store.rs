use vstd::prelude::*;
use vstd::string::StringExecFns;

use crate::chunker::cdc::{cdc_pieces, default_cdc_config};
use crate::chunker::fixed::{fixed_split, lemma_fixed_split};
use crate::chunker::{
    all_nonempty, chunk_reader, chunk_views, concat_chunks, ByteSource, CdcChunker, Chunker, FixedChunker,
};
use crate::error::ChunkStoreError;
use crate::hasher::{digest_hex, digest_of, hex_alphabet, is_lower_digest, verify_digest};
use crate::store::assoc::{assoc_map, keys_distinct};
use crate::store::backend::ChunkBackend;
use crate::store::manifest::{occurrences, strings_view, FileRecord, Manifest};
use crate::store::persistence::{
    blobs_same, decimal_bytes, holds_counts, holds_manifest, index_name, indexes_readable, refcount_index_key, is_digest_text, is_hex_digit_char, is_meta_key,
    list_read_as, manifest_index_key, record_bytes,
    lemma_blobs_same_trans, lemma_digest_not_meta, lemma_holds_counts_frame, lemma_holds_manifest_frame,
    lemma_keys_are_meta, lemma_manifest_keys_same_trans, lemma_meta_write, lemma_write_outside_counts,
    lemma_write_outside_manifest, load_manifests, load_refcounts, manifest_digests_valid, manifest_key_of,
    manifest_keys_same, persisted_counts, refcount_key_of, refcount_keys_same, remove_manifest,
    remove_refcount, save_manifest, save_refcount,
};
use crate::store::refcount::{count_entries, size_total, weighted_total, RefCount};
use crate::store::stats::{sat_sub, Stats};

verus! {

/// Every content-address key holds bytes whose digest is that key.
pub open spec fn content_addressed(s: Map<Seq<char>, Seq<u8>>) -> bool {
    forall|k: Seq<char>| #[trigger] s.contains_key(k) && is_lower_digest(k) ==> digest_of(s[k]) == k
}

/// No blob present in both maps differs: blobs are added or removed, never overwritten.
pub open spec fn blobs_kept(s0: Map<Seq<char>, Seq<u8>>, s1: Map<Seq<char>, Seq<u8>>) -> bool {
    forall|k: Seq<char>|
        !is_meta_key(k) && s0.contains_key(k) && #[trigger] s1.contains_key(k) ==> s1[k] == s0[k]
}

/// The count recorded for `d`, 0 when there is none.
pub open spec fn count_of(m: Map<Seq<char>, u64>, d: Seq<char>) -> int {
    if m.contains_key(d) {
        m[d] as int
    } else {
        0
    }
}

/// The content address of each chunk.
pub open spec fn chunk_digests(chunks: Seq<Vec<u8>>) -> Seq<Seq<char>> {
    chunks.map_values(|c: Vec<u8>| digest_of(c@))
}

/// The content address of each piece.
pub open spec fn piece_digests(pieces: Seq<Seq<u8>>) -> Seq<Seq<char>> {
    pieces.map_values(|p: Seq<u8>| digest_of(p))
}

/// A key that an ingest of `file_id` may add: a new piece's digest or count
/// key, an earlier chunk's count key, the file's record key, or an index key.
pub open spec fn ingest_key(k: Seq<char>, file_id: Seq<char>, old_ds: Seq<Seq<char>>, new_ds: Seq<Seq<char>>) -> bool {
    ||| new_ds.contains(k)
    ||| k == manifest_key_of(file_id)
    ||| k == manifest_index_key()
    ||| k == refcount_index_key()
    ||| exists|d: Seq<char>| (new_ds.contains(d) || old_ds.contains(d)) && k == #[trigger] refcount_key_of(d)
}

/// The chunk under `d` is stored and its bytes hash to `d`.
pub open spec fn chunk_ok(s: Map<Seq<char>, Seq<u8>>, d: Seq<char>) -> bool {
    s.contains_key(d) && digest_of(s[d]) == d
}

/// The blobs stored under a list of digests, one per digest.
pub open spec fn blob_list(s: Map<Seq<char>, Seq<u8>>, ds: Seq<Seq<char>>) -> Seq<Seq<u8>> {
    ds.map_values(|d: Seq<char>| s[d])
}

/// The blobs stored under a list of digests, laid end to end.
pub open spec fn blobs_concat(s: Map<Seq<char>, Seq<u8>>, ds: Seq<Seq<char>>) -> Seq<u8> {
    ds.map_values(|d: Seq<char>| s[d]).flatten()
}

/// The total length of a list of chunks.
pub open spec fn total_len(chunks: Seq<Vec<u8>>) -> nat
    decreases chunks.len(),
{
    if chunks.len() == 0 {
        0
    } else {
        total_len(chunks.drop_last()) + chunks.last()@.len()
    }
}

/// Storing the pieces cannot mix up two different byte strings with one digest:
/// no two pieces with one digest differ, and no blob already stored under a
/// piece's digest differs from that piece.
pub open spec fn no_collision(s: Map<Seq<char>, Seq<u8>>, pieces: Seq<Seq<u8>>) -> bool {
    &&& forall|i: int, j: int|
        0 <= i < pieces.len() && 0 <= j < pieces.len() && digest_of(#[trigger] pieces[i]) == digest_of(
            #[trigger] pieces[j],
        ) ==> pieces[i] == pieces[j]
    &&& forall|i: int|
        0 <= i < pieces.len() && s.contains_key(digest_of(#[trigger] pieces[i])) ==> s[digest_of(
            pieces[i],
        )] == pieces[i]
}

/// The statistics after releasing one reference to each digest of `ds` in turn:
/// every release takes the blob's size (in `s`) off the total, and the release
/// that brings a count (starting from `rc`) to zero also takes it off the stored bytes.
pub open spec fn released_stats(
    st: Stats,
    s: Map<Seq<char>, Seq<u8>>,
    rc: Map<Seq<char>, u64>,
    ds: Seq<Seq<char>>,
) -> Stats
    decreases ds.len(),
{
    if ds.len() == 0 {
        st
    } else {
        let prev = released_stats(st, s, rc, ds.drop_last());
        let size = s[ds.last()].len() as u64;
        Stats {
            total_bytes: sat_sub(prev.total_bytes, size),
            stored_bytes: if count_of(rc, ds.last()) - occurrences(ds, ds.last()) == 0 {
                sat_sub(prev.stored_bytes, size)
            } else {
                prev.stored_bytes
            },
        }
    }
}

/// The statistics are what the counts and the stored chunk sizes give: the total
/// is each counted chunk's size times its count and the stored bytes are the
/// sizes of the counted chunks; the counted chunks are stored under digest texts,
/// and every chunk stored under a content address is counted.
pub closed spec fn stats_match(st: Stats, rc: RefCount, s: Map<Seq<char>, Seq<u8>>) -> bool {
    &&& rc.wf()
    &&& st.total_bytes == rc.weighted(s)
    &&& st.stored_bytes == rc.sized(s)
    &&& forall|d: Seq<char>| #[trigger] rc@.contains_key(d) ==> s.contains_key(d) && is_digest_text(d)
    &&& forall|k: Seq<char>| #[trigger] s.contains_key(k) && is_lower_digest(k) ==> rc@.contains_key(k)
}

/// The backend contents `s` hold an image that a store opens without error: the
/// manifest `mm` (which loads back, see [`crate::store::persistence::manifest_loads`])
/// and the counts `cc`, every counted chunk is stored, and the byte totals of
/// the counts fit in `u64`.
pub open spec fn opens_cleanly(
    s: Map<Seq<char>, Seq<u8>>,
    mm: Map<Seq<char>, FileRecord>,
    cc: Map<Seq<char>, u64>,
) -> bool {
    &&& crate::store::persistence::manifest_loads(s, mm)
    &&& holds_counts(s, cc)
    &&& forall|d: Seq<char>| #[trigger] cc.contains_key(d) ==> s.contains_key(d)
    &&& exists|rcv: RefCount|
        rcv.wf() && rcv@ == cc && rcv.weighted(s) <= u64::MAX && rcv.sized(s) <= u64::MAX
}

/// Metadata writes leave the match of statistics and counts alone.
proof fn lemma_stats_match_frame(st: Stats, rc: RefCount, s0: Map<Seq<char>, Seq<u8>>, s1: Map<Seq<char>, Seq<u8>>)
    requires
        stats_match(st, rc, s0),
        blobs_same(s0, s1),
    ensures
        stats_match(st, rc, s1),
{
    assert forall|d: Seq<char>| #[trigger] rc@.contains_key(d) implies s0[d] == s1[d] && s1.contains_key(d) by {
        lemma_digest_not_meta(d);
    }
    rc.lemma_sums_frame(s0, s1);
    assert forall|k: Seq<char>| #[trigger] s1.contains_key(k) && is_lower_digest(k) implies rc@.contains_key(k) by {
        lemma_lower_digest_is_digest_text(k);
        assert(s0.contains_key(k) == s1.contains_key(k));
    }
}

/// Releasing one reference keeps the statistics matching the counts.
proof fn lemma_release_one_match(
    st_b: Stats,
    rc_b: RefCount,
    s_b: Map<Seq<char>, Seq<u8>>,
    d: Seq<char>,
    rc_m: RefCount,
    st_f: Stats,
    s_f: Map<Seq<char>, Seq<u8>>,
)
    requires
        stats_match(st_b, rc_b, s_b),
        rc_b@.contains_key(d),
        rc_m.wf(),
        rc_m@ == if rc_b@[d] == 1 {
            rc_b@.remove(d)
        } else {
            rc_b@.insert(d, (rc_b@[d] - 1) as u64)
        },
        forall|s: Map<Seq<char>, Seq<u8>>| #[trigger] rc_m.weighted(s) + s[d].len() == rc_b.weighted(s),
        forall|s: Map<Seq<char>, Seq<u8>>| #[trigger]
            rc_m.sized(s) + (if rc_b@[d] == 1 { s[d].len() } else { 0 }) == rc_b.sized(s),
        st_f == if rc_b@[d] == 1 {
            st_b.without_unique_chunk(s_b[d].len() as u64).without_reference(s_b[d].len() as u64)
        } else {
            st_b.without_reference(s_b[d].len() as u64)
        },
        rc_b@[d] == 1 ==> blobs_same(s_b.remove(d), s_f),
        rc_b@[d] != 1 ==> blobs_same(s_b, s_f),
    ensures
        stats_match(st_f, rc_m, s_f),
{
    rc_b.lemma_sums_cover(s_b, d);
    assert(rc_m.weighted(s_b) + s_b[d].len() == rc_b.weighted(s_b));
    assert(rc_m.sized(s_b) + (if rc_b@[d] == 1 { s_b[d].len() } else { 0 }) == rc_b.sized(s_b));
    if rc_b@[d] == 1 {
        let s_m = s_b.remove(d);
        assert forall|e: Seq<char>| #[trigger] rc_m@.contains_key(e) implies s_b[e] == s_m[e] by {
            assert(rc_b@.contains_key(e));
        }
        rc_m.lemma_sums_frame(s_b, s_m);
        assert forall|e: Seq<char>| #[trigger] rc_m@.contains_key(e) implies s_m.contains_key(e) && is_digest_text(e) by {
            assert(rc_b@.contains_key(e));
        }
        assert forall|k: Seq<char>| #[trigger] s_m.contains_key(k) && is_lower_digest(k) implies rc_m@.contains_key(k) by {
            assert(s_b.contains_key(k));
        }
        assert(stats_match(st_f, rc_m, s_m));
        lemma_stats_match_frame(st_f, rc_m, s_m, s_f);
    } else {
        assert forall|e: Seq<char>| #[trigger] rc_m@.contains_key(e) implies s_b.contains_key(e) && is_digest_text(e) by {
            assert(rc_b@.contains_key(e));
        }
        assert forall|k: Seq<char>| #[trigger] s_b.contains_key(k) && is_lower_digest(k) implies rc_m@.contains_key(k) by {
            assert(rc_b@.contains_key(k));
        }
        assert(stats_match(st_f, rc_m, s_b));
        lemma_stats_match_frame(st_f, rc_m, s_b, s_f);
    }
}

/// Released statistics depend only on the sizes of the released blobs.
pub proof fn lemma_released_stats_sizes(
    st: Stats,
    sa: Map<Seq<char>, Seq<u8>>,
    sb: Map<Seq<char>, Seq<u8>>,
    rc: Map<Seq<char>, u64>,
    ds: Seq<Seq<char>>,
)
    requires
        forall|q: int| 0 <= q < ds.len() ==> #[trigger] sa[ds[q]] == sb[ds[q]],
    ensures
        released_stats(st, sa, rc, ds) == released_stats(st, sb, rc, ds),
    decreases ds.len(),
{
    if ds.len() > 0 {
        lemma_released_stats_sizes(st, sa, sb, rc, ds.drop_last());
        assert(sa[ds[ds.len() - 1]] == sb[ds[ds.len() - 1]]);
    }
}

/// A content address is never a metadata key.
proof fn lemma_digest_of_not_meta(data: Seq<u8>)
    ensures
        !is_meta_key(digest_of(data)),
{
    let d = digest_of(data);
    crate::hasher::lemma_hex_encode_digits(crate::hasher::sha256(data));
    if d.len() >= 10 {
        assert(hex_alphabet().contains(d[0]));
        assert(d.take(10)[0] == d[0]);
    }
}

pub proof fn lemma_lower_digest_is_digest_text(d: Seq<char>)
    requires
        is_lower_digest(d),
    ensures
        is_digest_text(d),
        !is_meta_key(d),
{
    assert forall|i: int| 0 <= i < d.len() implies is_hex_digit_char(#[trigger] d[i]) by {
        assert(hex_alphabet().contains(d[i]));
        let j = choose|j: int| 0 <= j < hex_alphabet().len() && hex_alphabet()[j] == d[i];
        assert(0 <= j < 16);
    }
    assert(hex_alphabet().contains(d[0]));
    let j = choose|j: int| 0 <= j < hex_alphabet().len() && hex_alphabet()[j] == d[0];
    if d.take(10)[0] == '_' {
        assert(d.take(10)[0] == d[0]);
    }
    assert(d.take(10)[0] == d[0]);
}

/// A sink of bytes written in order (the role `std::io::Write` plays for
/// [`ChunkStore::read_to_writer`]).
pub trait ByteSink {
    /// Everything written so far, in order. An implementation written outside
    /// Verus keeps this default; the contract of its `write_all` is then
    /// trusted, not checked, to hold of what it really writes.
    closed spec fn written(&self) -> Seq<u8> {
        vstd::pervasive::arbitrary()
    }

    /// Every write succeeds. An implementation written outside Verus keeps
    /// this default, which promises no success.
    closed spec fn always_writes(&self) -> bool {
        false
    }

    /// The sink keeps each successful write as one block of [`Self::blocks`].
    /// The default promises no such record.
    closed spec fn records_blocks(&self) -> bool {
        false
    }

    /// The blocks written so far, one per successful `write_all`, in order,
    /// where the sink records them.
    closed spec fn blocks(&self) -> Seq<Seq<u8>> {
        vstd::pervasive::arbitrary()
    }

    /// Write all of `data`.
    fn write_all(&mut self, data: &[u8]) -> (r: Result<(), ChunkStoreError>)
        ensures
            r is Ok ==> final(self).written() == old(self).written() + data@,
            old(self).always_writes() ==> r is Ok && final(self).always_writes(),
            old(self).records_blocks() ==> final(self).records_blocks() && (r is Ok ==> final(self).blocks()
                == old(self).blocks().push(data@)),
    ;
}

impl ByteSink for Vec<u8> {
    open spec fn written(&self) -> Seq<u8> {
        self@
    }

    open spec fn always_writes(&self) -> bool {
        true
    }

    fn write_all(&mut self, data: &[u8]) -> (r: Result<(), ChunkStoreError>)
        ensures
            r is Ok,
    {
        let mut more = vstd::slice::slice_to_vec(data);
        self.append(&mut more);
        Ok(())
    }
}

/// A sink that keeps every write as a block of its own, in order.
pub struct BlockSink {
    blocks: Vec<Vec<u8>>,
}

impl BlockSink {
    pub fn new() -> (b: Self)
        ensures
            b.blocks() == Seq::<Seq<u8>>::empty(),
            b.records_blocks(),
            b.always_writes(),
    {
        let b = BlockSink { blocks: Vec::new() };
        proof {
            assert(chunk_views(b.blocks@) =~= Seq::<Seq<u8>>::empty());
        }
        b
    }

    /// The blocks written so far, in order.
    pub fn into_blocks(self) -> (v: Vec<Vec<u8>>)
        ensures
            chunk_views(v@) == self.blocks(),
    {
        self.blocks
    }
}

impl ByteSink for BlockSink {
    open spec fn written(&self) -> Seq<u8> {
        self.blocks().flatten()
    }

    open spec fn always_writes(&self) -> bool {
        true
    }

    open spec fn records_blocks(&self) -> bool {
        true
    }

    closed spec fn blocks(&self) -> Seq<Seq<u8>> {
        chunk_views(self.blocks@)
    }

    fn write_all(&mut self, data: &[u8]) -> (r: Result<(), ChunkStoreError>)
        ensures
            r is Ok,
    {
        let block = vstd::slice::slice_to_vec(data);
        self.blocks.push(block);
        proof {
            assert(chunk_views(self.blocks@) =~= chunk_views(old(self).blocks@).push(data@));
            chunk_views(old(self).blocks@).lemma_flatten_push(data@);
        }
        Ok(())
    }
}

/// Content-addressed store with manifests, refcounts, and GC.
pub struct ChunkStore<B: ChunkBackend> {
    backend: B,
    manifest: Manifest,
    refcount: RefCount,
    stats: Stats,
}

impl<B: ChunkBackend> ChunkStore<B> {
    /// The backend's contents.
    pub closed spec fn stored(&self) -> Map<Seq<char>, Seq<u8>> {
        self.backend.stored()
    }

    /// The backend never fails (see [`ChunkBackend::infallible`]).
    pub closed spec fn reliable(&self) -> bool {
        self.backend.infallible()
    }

    /// The ordered chunk digests of each stored file.
    pub closed spec fn files(&self) -> Map<Seq<char>, Seq<Seq<char>>> {
        self.manifest@.map_values(|r: FileRecord| r.0)
    }

    /// The recorded size of each stored file.
    pub closed spec fn file_sizes(&self) -> Map<Seq<char>, u64> {
        self.manifest@.map_values(|r: FileRecord| r.1)
    }

    /// The reference count of each stored chunk.
    pub closed spec fn refcounts(&self) -> Map<Seq<char>, u64> {
        self.refcount@
    }

    /// The dedup statistics.
    pub closed spec fn stats_view(&self) -> Stats {
        self.stats
    }

    /// The digests recorded for a file; empty for a file not stored.
    pub open spec fn digests_of(&self, file_id: Seq<char>) -> Seq<Seq<char>> {
        if self.files().contains_key(file_id) {
            self.files()[file_id]
        } else {
            Seq::empty()
        }
    }

    /// Ingesting `chunks` as `file_id` keeps every count and byte total within
    /// `u64` (the counts and totals after releasing the file's earlier version).
    pub open spec fn ingest_fits(&self, file_id: Seq<char>, pieces: Seq<Seq<u8>>) -> bool {
        let old_ds = self.digests_of(file_id);
        let released = released_stats(self.stats_view(), self.stored(), self.refcounts(), old_ds);
        let n = pieces.flatten().len();
        &&& n <= u64::MAX
        &&& released.total_bytes + n <= u64::MAX
        &&& released.stored_bytes + n <= u64::MAX
        &&& forall|d: Seq<char>|
            count_of(self.refcounts(), d) - occurrences(old_ds, d) + occurrences(piece_digests(pieces), d)
                <= u64::MAX
    }

    /// An ingest as `file_id` (within the limits of [`Self::ingest_fits`]) runs
    /// to its last step without a failure of the backend or of the metadata: the
    /// backend never fails, the store is consistent, both index lists read
    /// back, and the file ID is not the name of the manifest index.
    pub open spec fn ingest_runs(&self, file_id: Seq<char>) -> bool {
        &&& self.reliable()
        &&& self.wf()
        &&& indexes_readable(self.stored())
        &&& file_id != index_name()
    }

    /// An ingest as `file_id` cannot fail: it runs (see [`Self::ingest_runs`])
    /// and the file ID is not empty.
    pub open spec fn ingest_succeeds(&self, file_id: Seq<char>) -> bool {
        &&& self.ingest_runs(file_id)
        &&& file_id.len() > 0
    }

    /// What a successful ingest of `pieces` as `file_id` leaves, returning `ds`:
    /// the file's digests are the pieces' content addresses and every piece is
    /// stored; the counts move from the earlier version to the new one; only
    /// chunks of the earlier version that lost their last reference are deleted,
    /// only the pieces' chunks are added, and (unless a digest collides) no
    /// stored chunk is overwritten. In a consistent store the store stays
    /// consistent, the file reads back as the pieces (unless a digest collides),
    /// and other files keep their bytes; a durable store stays durable, and
    /// statistics that match the counts keep matching them.
    pub open spec fn ingest_post(
        s0: Self,
        s1: Self,
        file_id: Seq<char>,
        pieces: Seq<Seq<u8>>,
        ds: Seq<Seq<char>>,
    ) -> bool {
        let new_ds = piece_digests(pieces);
        let old_ds = s0.digests_of(file_id);
        &&& file_id.len() > 0
        &&& ds == new_ds
        &&& s1.files() == s0.files().insert(file_id, new_ds)
        &&& s1.file_sizes() == s0.file_sizes().insert(file_id, pieces.flatten().len() as u64)
        &&& forall|i: int| 0 <= i < pieces.len() ==> s1.stored().contains_key(#[trigger] new_ds[i])
        &&& forall|d: Seq<char>| #[trigger]
            count_of(s1.refcounts(), d) == count_of(s0.refcounts(), d) - occurrences(old_ds, d)
                + occurrences(new_ds, d)
        &&& s1.stats_view().total_bytes == released_stats(
            s0.stats_view(),
            s0.stored(),
            s0.refcounts(),
            old_ds,
        ).total_bytes + pieces.flatten().len()
        &&& s0.wf() ==> s1.wf()
        &&& s0.durable() && file_id != index_name() ==> s1.durable()
        &&& s0.ingest_runs(file_id) ==> indexes_readable(s1.stored()) && s1.reliable()
        &&& s0.stats_consistent() && no_collision(s0.stored(), pieces) ==> s1.stats_consistent()
            && s1.stats_are_sums()
        &&& s0.wf() && no_collision(s0.stored(), pieces) ==> s1.content(file_id) == pieces.flatten()
        &&& s0.wf() ==> forall|id: Seq<char>|
            id != file_id && #[trigger] s1.files().contains_key(id) ==> s1.content(id) == s0.content(id)
        &&& s0.wf() ==> forall|d: Seq<char>|
            old_ds.contains(d) && !#[trigger] s1.refcounts().contains_key(d) ==> !s1.stored().contains_key(d)
        &&& no_collision(s0.stored(), pieces) ==> blobs_kept(s0.stored(), s1.stored())
        &&& forall|k: Seq<char>|
            #[trigger] s1.stored().contains_key(k) && !s0.stored().contains_key(k) ==> ingest_key(
                k,
                file_id,
                old_ds,
                new_ds,
            )
        &&& forall|k: Seq<char>|
            !is_meta_key(k) && #[trigger] s1.stored().contains_key(k) ==> s0.stored().contains_key(k)
                || new_ds.contains(k)
        &&& forall|k: Seq<char>|
            !is_meta_key(k) && s0.stored().contains_key(k) && !#[trigger] s1.stored().contains_key(k)
                ==> old_ds.contains(k) && !s1.refcounts().contains_key(k)
    }

    /// The bytes of a stored file: the blobs of its digests, in order.
    pub open spec fn content(&self, file_id: Seq<char>) -> Seq<u8> {
        blobs_concat(self.stored(), self.files()[file_id])
    }

    /// The backend holds the manifest and the reference counts, so that a store
    /// opened over it loads them back.
    pub closed spec fn durable(&self) -> bool {
        &&& holds_manifest(self.backend.stored(), self.manifest@)
        &&& holds_counts(self.backend.stored(), self.refcount@)
    }

    /// What a store opened over the backend contents `s` holds: those contents,
    /// a well-formed manifest and reference counts, statistics summed from the
    /// counts and the chunk sizes, and, where `s` holds a manifest and reference
    /// counts, those.
    pub closed spec fn loaded_from(&self, s: Map<Seq<char>, Seq<u8>>) -> bool {
        &&& self.valid()
        &&& self.backend.stored() == s
        &&& self.stats.total_bytes == self.refcount.weighted(s)
        &&& self.stats.stored_bytes == self.refcount.sized(s)
        &&& forall|m: Map<Seq<char>, FileRecord>| #[trigger] holds_manifest(s, m) ==> self.manifest@ == m
        &&& forall|rc: Map<Seq<char>, u64>| #[trigger] holds_counts(s, rc) ==> self.refcount@ == rc
    }

    /// The statistics are what the counts and the stored chunk sizes give (see
    /// [`stats_match`]).
    pub closed spec fn stats_consistent(&self) -> bool {
        stats_match(self.stats, self.refcount, self.backend.stored())
    }

    /// The statistics law: in a store whose statistics match its counts, the
    /// stored bytes are the sizes of the counted chunks' blobs and the total
    /// bytes are those sizes times the counts, summed over any list of the
    /// counts that names each digest once.
    pub proof fn lemma_stats_sums(&self, es: Seq<(Seq<char>, u64)>)
        requires
            self.stats_consistent(),
            keys_distinct(es),
            assoc_map(es) == self.refcounts(),
        ensures
            self.stats_view().stored_bytes == size_total(es, self.stored()),
            self.stats_view().total_bytes == weighted_total(es, self.stored()),
    {
        self.refcount.lemma_sums_by_list(es, self.backend.stored());
    }

    /// Every reference count of a store is positive: a digest whose count falls
    /// to zero leaves the count map.
    pub proof fn lemma_counts_positive(&self)
        requires
            self.valid(),
        ensures
            forall|d: Seq<char>| #[trigger] self.refcounts().contains_key(d) ==> self.refcounts()[d] > 0,
    {
        self.refcount.lemma_counts_positive();
    }

    /// In a consistent store a digest is counted exactly when some file refers
    /// to it, and a counted digest's chunk is stored under it and hashes to it.
    pub proof fn lemma_wf_counted(&self, d: Seq<char>)
        requires
            self.wf(),
        ensures
            self.refcounts().contains_key(d) <==> exists|id: Seq<char>|
                #[trigger] self.files().contains_key(id) && self.files()[id].contains(d),
            self.refcounts().contains_key(d) ==> self.stored().contains_key(d) && digest_of(self.stored()[d])
                == d,
    {
        if self.refcount@.contains_key(d) {
            self.manifest.lemma_refs_witness(d);
            let id = choose|id: Seq<char>| #[trigger] self.manifest@.contains_key(id) && occurrences(
                self.manifest@[id].0,
                d,
            ) > 0;
            crate::store::manifest::lemma_occurrences_contains(self.manifest@[id].0, d);
            assert(self.files().contains_key(id) && self.files()[id].contains(d));
        }
        if exists|id: Seq<char>| #[trigger] self.files().contains_key(id) && self.files()[id].contains(d) {
            let id = choose|id: Seq<char>| #[trigger] self.files().contains_key(id) && self.files()[id].contains(d);
            assert(self.files()[id] == self.manifest@[id].0);
            crate::store::manifest::lemma_occurrences_contains(self.manifest@[id].0, d);
            self.manifest.lemma_refs_cover_file(id, d);
        }
    }

    /// The statistics are sums over the counts: over any list of the counts
    /// that names each digest once, the stored bytes are the summed sizes of
    /// the counted chunks' blobs and the total bytes those sizes times the counts.
    pub open spec fn stats_are_sums(&self) -> bool {
        forall|es: Seq<(Seq<char>, u64)>|
            keys_distinct(es) && #[trigger] assoc_map(es) == self.refcounts() ==> {
                &&& self.stats_view().stored_bytes == size_total(es, self.stored())
                &&& self.stats_view().total_bytes == weighted_total(es, self.stored())
            }
    }

    /// Statistics that match the counts are their sums.
    pub proof fn lemma_consistent_sums(&self)
        requires
            self.stats_consistent(),
        ensures
            self.stats_are_sums(),
    {
        assert forall|es: Seq<(Seq<char>, u64)>|
            keys_distinct(es) && #[trigger] assoc_map(es) == self.refcounts() implies {
                &&& self.stats_view().stored_bytes == size_total(es, self.stored())
                &&& self.stats_view().total_bytes == weighted_total(es, self.stored())
            } by {
            self.lemma_stats_sums(es);
        }
    }

    /// Close the store and hand its backend back, holding what the store left
    /// there (so that a store opened over it again loads what this one wrote).
    pub fn into_backend(self) -> (b: B)
        ensures
            b.stored() == self.stored(),
            b.infallible() == self.reliable(),
    {
        self.backend
    }

    /// A durable, consistent store whose statistics match its counts leaves an
    /// image that a store opened over its backend loads without error.
    pub proof fn lemma_reopens_cleanly(&self)
        requires
            self.valid(),
            self.wf(),
            self.durable(),
            self.stats_consistent(),
        ensures
            exists|mm: Map<Seq<char>, FileRecord>, cc: Map<Seq<char>, u64>|
                #[trigger] opens_cleanly(self.stored(), mm, cc),
    {
        let s = self.backend.stored();
        assert(crate::store::persistence::manifest_loads(s, self.manifest@));
        assert(self.refcount.wf() && self.refcount@ == self.refcount@ && self.refcount.weighted(s) <= u64::MAX
            && self.refcount.sized(s) <= u64::MAX);
        assert(opens_cleanly(s, self.manifest@, self.refcount@));
        assert(opens_cleanly(self.stored(), self.manifest@, self.refcount@));
    }

    /// A durable store's index lists read back.
    pub proof fn lemma_durable_readable(&self)
        requires
            self.durable(),
        ensures
            indexes_readable(self.stored()),
    {
        crate::store::persistence::lemma_index_lists_readable(
            self.backend.stored(),
            manifest_index_key(),
            self.manifest@.dom(),
        );
        crate::store::persistence::lemma_index_lists_readable(
            self.backend.stored(),
            refcount_index_key(),
            self.refcount@.dom(),
        );
    }

    /// In a store whose statistics match its counts, the stored bytes never
    /// exceed the ingested bytes.
    pub proof fn lemma_stored_within_total(&self)
        requires
            self.stats_consistent(),
        ensures
            self.stats_view().stored_bytes <= self.stats_view().total_bytes,
    {
        self.refcount.lemma_sized_le_weighted(self.backend.stored());
    }

    /// The manifest and the reference counts are well formed; every operation
    /// keeps this, whether it succeeds or not.
    pub closed spec fn valid(&self) -> bool {
        &&& self.manifest.wf()
        &&& self.refcount.wf()
        &&& manifest_digests_valid(self.manifest@)
        &&& !self.manifest@.contains_key(Seq::<char>::empty())
    }

    /// The store is consistent: each chunk's reference count is the number of
    /// times its digest occurs over all files, and each referenced chunk is
    /// stored under its content address.
    pub closed spec fn wf(&self) -> bool {
        &&& self.manifest.wf()
        &&& self.refcount.wf()
        &&& forall|d: Seq<char>| #[trigger]
            self.refcount@.contains_key(d) == (self.manifest.refs(d) > 0)
        &&& forall|d: Seq<char>| #[trigger]
            self.refcount@.contains_key(d) ==> self.refcount@[d] == self.manifest.refs(d)
        &&& forall|d: Seq<char>| #[trigger]
            self.refcount@.contains_key(d) ==> self.backend.stored().contains_key(d) && is_lower_digest(d)
        &&& content_addressed(self.backend.stored())
    }

    /// In a consistent store every digest of every file is stored under its
    /// content address.
    pub proof fn lemma_wf_files_stored(&self, file_id: Seq<char>, i: int)
        requires
            self.wf(),
            self.files().contains_key(file_id),
            0 <= i < self.files()[file_id].len(),
        ensures
            self.refcounts().contains_key(self.files()[file_id][i]),
            self.stored().contains_key(self.files()[file_id][i]),
            digest_of(self.stored()[self.files()[file_id][i]]) == self.files()[file_id][i],
    {
        let d = self.files()[file_id][i];
        self.manifest.lemma_refs_cover_file(file_id, d);
        crate::store::manifest::lemma_occurrences_contains(self.manifest@[file_id].0, d);
        assert(self.manifest@[file_id].0[i] == d);
        assert(self.manifest@[file_id].0.contains(d));
        assert(self.refcount@.contains_key(d));
        assert(self.backend.stored().contains_key(d) && is_lower_digest(d));
    }

    fn digests_for_file(&self, file_id: &str) -> (r: Result<Vec<String>, ChunkStoreError>)
        requires
            self.valid(),
        ensures
            r is Err <==> !self.files().contains_key(file_id@),
            r matches Err(e) ==> e is NotFound,
            r matches Ok(ds) ==> strings_view(ds@) == self.files()[file_id@],
    {
        let ds = self.manifest.get(file_id)?;
        Ok(clone_strings(ds))
    }

    /// Ordered chunk digests for a stored file.
    pub fn file_digests(&self, file_id: &str) -> (r: Result<Vec<String>, ChunkStoreError>)
        requires
            self.valid(),
        ensures
            r is Err <==> !self.files().contains_key(file_id@),
            r matches Err(e) ==> e is NotFound,
            r matches Ok(ds) ==> strings_view(ds@) == self.files()[file_id@],
    {
        self.digests_for_file(file_id)
    }

    fn read_chunk_by_digest(&self, digest: &str) -> (r: Result<Vec<u8>, ChunkStoreError>)
        ensures
            r matches Ok(c) ==> self.stored().contains_key(digest@) && c@ == self.stored()[digest@]
                && digest_of(c@) == digest@,
            self.reliable() ==> (r is Ok <==> self.stored().contains_key(digest@) && digest_of(
                self.stored()[digest@],
            ) == digest@),
            self.reliable() && !self.stored().contains_key(digest@) ==> (r matches Err(e) && e is NotFound),
            self.reliable() && self.stored().contains_key(digest@) && digest_of(self.stored()[digest@])
                != digest@ ==> (r matches Err(ChunkStoreError::DigestMismatch { expected, actual })
                && expected@ == digest@ && actual@ == digest_of(self.stored()[digest@])),
    {
        let chunk = match self.backend.get(digest)? {
            Some(c) => c,
            None => {
                let mut msg = String::from_str("chunk ");
                msg.append(digest);
                return Err(ChunkStoreError::not_found(msg));
            },
        };
        verify_digest(chunk.as_slice(), digest)?;
        Ok(chunk)
    }

    /// Fetch and verify a single chunk payload by digest.
    pub fn read_chunk(&self, digest: &str) -> (r: Result<Vec<u8>, ChunkStoreError>)
        ensures
            r matches Ok(c) ==> self.stored().contains_key(digest@) && c@ == self.stored()[digest@]
                && digest_of(c@) == digest@,
            self.reliable() ==> (r is Ok <==> self.stored().contains_key(digest@) && digest_of(
                self.stored()[digest@],
            ) == digest@),
            self.reliable() && !self.stored().contains_key(digest@) ==> (r matches Err(e) && e is NotFound),
            self.reliable() && self.stored().contains_key(digest@) && digest_of(self.stored()[digest@])
                != digest@ ==> (r matches Err(ChunkStoreError::DigestMismatch { expected, actual })
                && expected@ == digest@ && actual@ == digest_of(self.stored()[digest@])),
    {
        self.read_chunk_by_digest(digest)
    }

    /// Stream verified chunk payloads to `writer` without assembling the full file in memory.
    pub fn read_to_writer<W: ByteSink>(&self, file_id: &str, writer: &mut W) -> (r: Result<
        (),
        ChunkStoreError,
    >)
        requires
            self.valid(),
        ensures
            !self.files().contains_key(file_id@) ==> (r matches Err(e) && e is NotFound),
            !self.files().contains_key(file_id@) ==> final(writer).written() == old(writer).written(),
            r is Ok ==> self.files().contains_key(file_id@) && final(writer).written() == old(
                writer,
            ).written() + self.content(file_id@),
            r is Ok ==> forall|j: int|
                0 <= j < self.files()[file_id@].len() ==> chunk_ok(self.stored(), #[trigger] self.files()[file_id@][j]),
            r is Ok && old(writer).records_blocks() ==> final(writer).blocks() == old(writer).blocks() + blob_list(
                self.stored(),
                self.files()[file_id@],
            ),
            self.files().contains_key(file_id@) && self.files()[file_id@].len() == 0 ==> r is Ok
                && final(writer).written() == old(writer).written(),
            self.files().contains_key(file_id@) && self.reliable() && self.wf() && old(writer).always_writes()
                ==> r is Ok,
            r is Err && self.files().contains_key(file_id@) && old(writer).always_writes() ==> exists|i: int|
                0 <= i < self.files()[file_id@].len() && final(writer).written() == old(writer).written()
                    + blobs_concat(self.stored(), #[trigger] self.files()[file_id@].take(i)),
            r is Err && self.files().contains_key(file_id@) && old(writer).always_writes() && self.reliable()
                ==> exists|i: int|
                {
                    &&& 0 <= i < self.files()[file_id@].len()
                    &&& forall|j: int| 0 <= j < i ==> chunk_ok(self.stored(), #[trigger] self.files()[file_id@][j])
                    &&& !chunk_ok(self.stored(), self.files()[file_id@][i])
                    &&& final(writer).written() == old(writer).written() + blobs_concat(
                        self.stored(),
                        #[trigger] self.files()[file_id@].take(i),
                    )
                    &&& if self.stored().contains_key(self.files()[file_id@][i]) {
                        r matches Err(e) && e is DigestMismatch
                    } else {
                        r matches Err(e) && e is NotFound
                    }
                },
    {
        let digests = self.digests_for_file(file_id)?;
        let ghost ds = strings_view(digests@);
        let ghost good = self.reliable() && self.wf() && old(writer).always_writes();
        let n = digests.len();
        let mut i: usize = 0;
        proof {
            assert(blobs_concat(self.stored(), ds.take(0)) =~= Seq::<u8>::empty());
            assert(blob_list(self.stored(), ds.take(0)) =~= Seq::<Seq<u8>>::empty());
            assert(old(writer).blocks() + Seq::<Seq<u8>>::empty() =~= old(writer).blocks());
            assert(old(writer).written() + Seq::<u8>::empty() =~= old(writer).written());
        }
        while i < n
            invariant
                n == digests@.len(),
                ds == strings_view(digests@),
                self.files().contains_key(file_id@),
                ds == self.files()[file_id@],
                i <= n,
                writer.written() == old(writer).written() + blobs_concat(self.stored(), ds.take(i as int)),
                good == (self.reliable() && self.wf() && old(writer).always_writes()),
                old(writer).always_writes() ==> writer.always_writes(),
                forall|j: int| 0 <= j < i ==> chunk_ok(self.stored(), #[trigger] ds[j]),
                old(writer).records_blocks() ==> writer.records_blocks() && writer.blocks() == old(writer).blocks()
                    + blob_list(self.stored(), ds.take(i as int)),
            decreases n - i,
        {
            proof {
                if good {
                    self.lemma_wf_files_stored(file_id@, i as int);
                    assert(digests@[i as int]@ == ds[i as int]);
                }
            }
            let chunk = self.read_chunk_by_digest(digests[i].as_str())?;
            let ghost before = writer.written();
            writer.write_all(chunk.as_slice())?;
            proof {
                let f = |d: Seq<char>| self.stored()[d];
                assert(ds.take(i + 1).map_values(f) =~= ds.take(i as int).map_values(f).push(chunk@));
                if old(writer).records_blocks() {
                    assert(writer.blocks() =~= old(writer).blocks() + blob_list(self.stored(), ds.take(i + 1)));
                }
                ds.take(i as int).map_values(f).lemma_flatten_push(chunk@);
                assert(writer.written() =~= old(writer).written() + blobs_concat(self.stored(), ds.take(i + 1)));
            }
            i = i + 1;
        }
        proof {
            assert(ds.take(n as int) =~= ds);
        }
        Ok(())
    }

    /// The bytes of a stored file, its verified chunks laid end to end.
    pub fn read(&self, file_id: &str) -> (r: Result<Vec<u8>, ChunkStoreError>)
        requires
            self.valid(),
        ensures
            !self.files().contains_key(file_id@) ==> (r matches Err(e) && e is NotFound),
            r matches Ok(bytes) ==> self.files().contains_key(file_id@) && bytes@ == self.content(
                file_id@,
            ),
            self.files().contains_key(file_id@) && (self.files()[file_id@].len() == 0 || (self.reliable()
                && self.wf())) ==> (r matches Ok(b) && b@ == self.content(file_id@)),
            self.files().contains_key(file_id@) && self.reliable() ==> (r is Ok <==> forall|j: int|
                0 <= j < self.files()[file_id@].len() ==> chunk_ok(self.stored(), #[trigger] self.files()[file_id@][j])),
            r is Err && self.files().contains_key(file_id@) && self.reliable() ==> exists|i: int|
                {
                    &&& 0 <= i < self.files()[file_id@].len()
                    &&& forall|j: int| 0 <= j < i ==> chunk_ok(self.stored(), #[trigger] self.files()[file_id@][j])
                    &&& !chunk_ok(self.stored(), #[trigger] self.files()[file_id@][i])
                    &&& if self.stored().contains_key(self.files()[file_id@][i]) {
                        r matches Err(e) && e is DigestMismatch
                    } else {
                        r matches Err(e) && e is NotFound
                    }
                },
    {
        let mut out: Vec<u8> = Vec::new();
        self.read_to_writer(file_id, &mut out)?;
        proof {
            assert(out@ =~= Seq::<u8>::empty() + self.content(file_id@));
        }
        Ok(out)
    }

    fn chunk_size(&self, digest: &str) -> (r: Result<u64, ChunkStoreError>)
        ensures
            r matches Ok(n) ==> self.stored().contains_key(digest@) && n == self.stored()[digest@].len(),
            self.reliable() ==> (r is Ok <==> self.stored().contains_key(digest@)),
            self.reliable() && !self.stored().contains_key(digest@) ==> (r matches Err(e) && e is NotFound),
    {
        let data = match self.backend.get(digest)? {
            Some(d) => d,
            None => {
                let mut msg = String::from_str("chunk ");
                msg.append(digest);
                return Err(ChunkStoreError::not_found(msg));
            },
        };
        Ok(data.len() as u64)
    }

    /// The dedup statistics.
    pub fn stats(&self) -> (r: Result<Stats, ChunkStoreError>)
        ensures
            r matches Ok(s) && s == self.stats_view(),
    {
        Ok(Stats { total_bytes: self.stats.total_bytes, stored_bytes: self.stats.stored_bytes })
    }

    /// Reference count for a chunk digest (for tests and diagnostics).
    pub fn chunk_refcount(&self, digest: &str) -> (r: Result<Option<u64>, ChunkStoreError>)
        requires
            self.valid(),
        ensures
            r matches Ok(c) && c == self.refcounts().get(digest@),
    {
        Ok(self.refcount.get(digest))
    }

    #[verifier::spinoff_prover]
    fn store_chunk(&mut self, digest: &str, data: &[u8]) -> (r: Result<(), ChunkStoreError>)
        requires
            old(self).valid(),
            digest@ == digest_of(data@),
            is_lower_digest(digest@),
            count_of(old(self).refcount@, digest@) < u64::MAX,
            old(self).stats.total_bytes + data@.len() <= u64::MAX,
            old(self).stats.stored_bytes + data@.len() <= u64::MAX,
        ensures
            final(self).valid(),
            final(self).manifest == old(self).manifest,
            final(self).reliable() == old(self).reliable(),
            old(self).reliable() && indexes_readable(old(self).backend.stored()) ==> r is Ok,
            old(self).reliable() && r is Ok && indexes_readable(old(self).backend.stored()) ==> indexes_readable(
                final(self).backend.stored(),
            ),
            r is Ok ==> forall|k: Seq<char>|
                #[trigger] final(self).backend.stored().contains_key(k) && !old(self).backend.stored().contains_key(k)
                    ==> k == digest@ || k == refcount_key_of(digest@) || k == refcount_index_key(),
            r is Ok ==> final(self).backend.stored().contains_key(refcount_key_of(digest@))
                && final(self).backend.stored()[refcount_key_of(digest@)] == decimal_bytes(
                (count_of(old(self).refcount@, digest@) + 1) as nat,
            ),
            r is Ok ==> manifest_keys_same(old(self).backend.stored(), final(self).backend.stored()),
            r is Ok && holds_counts(old(self).backend.stored(), old(self).refcount@) ==> holds_counts(
                final(self).backend.stored(),
                final(self).refcount@,
            ),
            r is Ok && stats_match(old(self).stats, old(self).refcount, old(self).backend.stored()) && (
            old(self).backend.stored().contains_key(digest@) ==> old(self).backend.stored()[digest@] == data@)
                ==> stats_match(final(self).stats, final(self).refcount, final(self).backend.stored()),
            r is Ok ==> {
                &&& final(self).refcount@ == old(self).refcount@.insert(
                    digest@,
                    (count_of(old(self).refcount@, digest@) + 1) as u64,
                )
                &&& blobs_same(
                    final(self).backend.stored(),
                    if old(self).backend.stored().contains_key(digest@) {
                        old(self).backend.stored()
                    } else {
                        old(self).backend.stored().insert(digest@, data@)
                    },
                )
                &&& final(self).stats == if old(self).backend.stored().contains_key(digest@) {
                    old(self).stats.with_reference(data@.len() as u64)
                } else {
                    old(self).stats.with_unique_chunk(data@.len() as u64)
                }
            },
    {
        let size = data.len() as u64;
        let exists = self.backend.key_exists(digest)?;
        proof {
            lemma_lower_digest_is_digest_text(digest@);
            lemma_write_outside_manifest(old(self).backend.stored(), digest@, data@);
            lemma_write_outside_counts(old(self).backend.stored(), digest@, data@);
        }
        if !exists {
            self.backend.put(digest, data)?;
        }
        let ghost s1 = self.backend.stored();
        let count = self.refcount.increment(digest)?;
        proof {
            crate::store::persistence::lemma_blobs_same_refl(s1);
            if holds_counts(old(self).backend.stored(), old(self).refcount@) {
                if !exists {
                    lemma_holds_counts_frame(old(self).backend.stored(), s1, old(self).refcount@);
                }
            }
            crate::store::persistence::lemma_digest_key_not_index(digest@);
            if indexes_readable(old(self).backend.stored()) {
                if !exists {
                    lemma_keys_are_meta(index_name());
                    lemma_digest_not_meta(digest@);
                    crate::store::persistence::lemma_list_readable_other_key(
                        old(self).backend.stored(), manifest_index_key(), digest@, data@);
                    crate::store::persistence::lemma_list_readable_other_key(
                        old(self).backend.stored(), refcount_index_key(), digest@, data@);
                }
                assert(indexes_readable(s1));
                crate::store::persistence::lemma_list_readable_other_key(
                    s1,
                    refcount_index_key(),
                    refcount_key_of(digest@),
                    decimal_bytes(count as nat),
                );
            }
        }
        save_refcount(&mut self.backend, digest, count)?;
        proof {
            if !exists {
                lemma_manifest_keys_same_trans(old(self).backend.stored(), s1, self.backend.stored());
            }
        }
        if exists {
            self.stats.add_reference(size);
        } else {
            self.stats.add_unique_chunk(size);
        }
        proof {
            let s0 = old(self).backend.stored();
            let s2 = self.backend.stored();
            let rc0 = old(self).refcount;
            let rc1 = self.refcount;
            if stats_match(old(self).stats, rc0, s0) && (s0.contains_key(digest@) ==> s0[digest@] == data@) {
                if exists {
                    assert(rc0@.contains_key(digest@));
                } else {
                    assert(!rc0@.contains_key(digest@));
                    assert forall|d: Seq<char>| #[trigger] rc0@.contains_key(d) implies s0[d] == s1[d] by {}
                    rc0.lemma_sums_frame(s0, s1);
                }
                assert(self.stats.total_bytes == rc1.weighted(s1));
                assert(self.stats.stored_bytes == rc1.sized(s1));
                assert forall|d: Seq<char>| #[trigger] rc1@.contains_key(d) implies s1.contains_key(d) && is_digest_text(d) by {
                    if d != digest@ {
                        assert(rc0@.contains_key(d));
                    }
                }
                assert forall|k: Seq<char>| #[trigger] s1.contains_key(k) && is_lower_digest(k) implies rc1@.contains_key(k) by {
                    if k != digest@ {
                        assert(s0.contains_key(k));
                    }
                }
                assert(stats_match(self.stats, rc1, s1));
                lemma_stats_match_frame(self.stats, rc1, s1, s2);
            }
        }
        Ok(())
    }

    /// Releasing one reference to each of `ds` cannot fail: the backend never
    /// fails and its index lists read back, every digest is counted at least as often as
    /// it occurs in `ds`, and every digest's chunk is stored.
    pub open spec fn release_succeeds(st: Self, ds: Seq<Seq<char>>) -> bool {
        &&& st.reliable()
        &&& indexes_readable(st.stored())
        &&& forall|d: Seq<char>| #[trigger] occurrences(ds, d) <= count_of(st.refcounts(), d)
        &&& forall|d: Seq<char>| ds.contains(d) ==> #[trigger] st.stored().contains_key(d)
    }

    #[verifier::spinoff_prover]
    fn release_digests(&mut self, digests: &[String]) -> (r: Result<(), ChunkStoreError>)
        requires
            old(self).valid(),
            forall|i: int| 0 <= i < digests@.len() ==> is_digest_text(#[trigger] digests@[i]@),
        ensures
            final(self).valid(),
            final(self).manifest == old(self).manifest,
            final(self).reliable() == old(self).reliable(),
            Self::release_succeeds(*old(self), strings_view(digests@)) ==> r is Ok,
            old(self).reliable() && r is Ok && indexes_readable(old(self).backend.stored()) ==> indexes_readable(
                final(self).backend.stored(),
            ),
            r is Ok ==> count_keys_follow(
                final(self).backend.stored(),
                final(self).refcount@,
                strings_view(digests@),
            ),
            r is Ok ==> forall|k: Seq<char>|
                #[trigger] final(self).backend.stored().contains_key(k) && !old(self).backend.stored().contains_key(k)
                    ==> k == refcount_index_key() || exists|d: Seq<char>|
                    strings_view(digests@).contains(d) && k == #[trigger] refcount_key_of(d),
            r is Ok ==> manifest_keys_same(old(self).backend.stored(), final(self).backend.stored()),
            r is Ok && holds_counts(old(self).backend.stored(), old(self).refcount@) ==> holds_counts(
                final(self).backend.stored(),
                final(self).refcount@,
            ),
            r is Ok && stats_match(old(self).stats, old(self).refcount, old(self).backend.stored()) ==> stats_match(
                final(self).stats,
                final(self).refcount,
                final(self).backend.stored(),
            ),
            r is Ok ==> {
                let ds = strings_view(digests@);
                let s0 = old(self).backend.stored();
                let s1 = final(self).backend.stored();
                let rc0 = old(self).refcount@;
                let rc1 = final(self).refcount@;
                &&& forall|d: Seq<char>| #[trigger] count_of(rc1, d) == count_of(rc0, d) - occurrences(ds, d)
                &&& forall|k: Seq<char>|
                    !is_meta_key(k) && #[trigger] s1.contains_key(k) ==> s0.contains_key(k) && s1[k] == s0[k]
                &&& forall|k: Seq<char>|
                    !is_meta_key(k) && #[trigger] s0.contains_key(k) && !(ds.contains(k) && !rc1.contains_key(k))
                        ==> s1.contains_key(k)
                &&& forall|d: Seq<char>|
                    ds.contains(d) && !#[trigger] rc1.contains_key(d) ==> !s1.contains_key(d)
                &&& final(self).stats == released_stats(old(self).stats, s0, rc0, ds)
                &&& forall|d: Seq<char>| ds.contains(d) ==> #[trigger] s0.contains_key(d)
            },
    {
        let ghost ds = strings_view(digests@);
        let ghost s0 = self.backend.stored();
        let ghost rc0 = self.refcount@;
        let ghost st0 = self.stats;
        let ghost rcv0 = self.refcount;
        let ghost good = Self::release_succeeds(*old(self), ds);
        let n = digests.len();
        let mut i: usize = 0;
        while i < n
            invariant
                n == digests@.len(),
                ds == strings_view(digests@),
                good == Self::release_succeeds(*old(self), ds),
                self.reliable() == old(self).reliable(),
                old(self).reliable() && indexes_readable(s0) ==> indexes_readable(self.backend.stored()),
                count_keys_follow(self.backend.stored(), self.refcount@, ds.take(i as int)),
                forall|k: Seq<char>|
                    #[trigger] self.backend.stored().contains_key(k) && !s0.contains_key(k) ==> k == refcount_index_key()
                        || exists|d: Seq<char>| ds.take(i as int).contains(d) && k == #[trigger] refcount_key_of(d),
                rcv0 == old(self).refcount,
                stats_match(st0, rcv0, s0) ==> stats_match(self.stats, self.refcount, self.backend.stored()),
                i <= n,
                self.valid(),
                self.manifest == old(self).manifest,
                s0 == old(self).backend.stored(),
                rc0 == old(self).refcount@,
                forall|q: int| 0 <= q < digests@.len() ==> is_digest_text(#[trigger] digests@[q]@),
                st0 == old(self).stats,
                forall|d: Seq<char>| #[trigger]
                    count_of(self.refcount@, d) == count_of(rc0, d) - occurrences(ds.take(i as int), d),
                forall|k: Seq<char>|
                    !is_meta_key(k) && #[trigger] self.backend.stored().contains_key(k) ==> s0.contains_key(k)
                        && self.backend.stored()[k] == s0[k],
                forall|k: Seq<char>|
                    !is_meta_key(k) && #[trigger] s0.contains_key(k) && !(ds.take(i as int).contains(k)
                        && !self.refcount@.contains_key(k)) ==> self.backend.stored().contains_key(k),
                forall|d: Seq<char>|
                    ds.take(i as int).contains(d) && !#[trigger] self.refcount@.contains_key(d)
                        ==> !self.backend.stored().contains_key(d),
                self.stats == released_stats(st0, s0, rc0, ds.take(i as int)),
                forall|d: Seq<char>| ds.take(i as int).contains(d) ==> #[trigger] s0.contains_key(d),
                manifest_keys_same(s0, self.backend.stored()),
                holds_counts(s0, rc0) ==> holds_counts(self.backend.stored(), self.refcount@),
            decreases n - i,
        {
            let digest = digests[i].as_str();
            let ghost p = ds.take(i as int);
            let ghost s_before = self.backend.stored();
            let ghost rc_before = self.refcount@;
            let ghost rcv_before = self.refcount;
            let ghost st_before = self.stats;
            proof {
                assert(ds.take(i + 1) =~= p.push(digest@));
                assert(ds.take(i + 1).drop_last() =~= p);
                self.refcount.lemma_counts_positive();
                assert(is_digest_text(digests@[i as int]@));
                lemma_digest_not_meta(digest@);
                if good {
                    assert(ds[i as int] == digest@);
                    assert(ds.contains(digest@));
                    crate::store::manifest::lemma_occurrences_push(p, digest@, digest@);
                    lemma_occurrences_prefix_le(ds, i + 1, digest@);
                    assert(occurrences(ds, digest@) <= count_of(rc0, digest@));
                    assert(count_of(rc_before, digest@) >= 1);
                    assert(rc_before.contains_key(digest@));
                    assert(s0.contains_key(digest@));
                    assert(s_before.contains_key(digest@));
                }
            }
            let size = self.chunk_size(digest)?;
            let remaining = self.refcount.decrement(digest)?;
            let ghost rcv_mid = self.refcount;
            let ghost s_mid = self.backend.stored();
            proof {
                lemma_write_outside_manifest(s_mid, digest@, Seq::empty());
                lemma_write_outside_counts(s_mid, digest@, Seq::empty());
            }
            if remaining == 0 {
                self.backend.delete(digest)?;
                let ghost s_del = self.backend.stored();
                proof {
                    if holds_counts(s0, rc0) {
                        lemma_holds_counts_frame(s_mid, s_del, rc_before);
                    }
                    lemma_manifest_keys_same_trans(s0, s_mid, s_del);
                    if old(self).reliable() && indexes_readable(s0) {
                        crate::store::persistence::lemma_list_readable_remove(s_mid, manifest_index_key(), digest@);
                        crate::store::persistence::lemma_list_readable_remove(s_mid, refcount_index_key(), digest@);
                        crate::store::persistence::lemma_list_readable_remove(
                            s_del,
                            refcount_index_key(),
                            refcount_key_of(digest@),
                        );
                    }
                }
                remove_refcount(&mut self.backend, digest)?;
                proof {
                    lemma_manifest_keys_same_trans(s0, s_del, self.backend.stored());
                    let cur = self.backend.stored();
                    assert forall|d: Seq<char>| is_digest_text(d) && d != digest@ implies #[trigger]
                        crate::store::persistence::agree_at(s_before, cur, refcount_key_of(d)) by {
                        lemma_count_key_untouched(d, digest@);
                    }
                    crate::store::persistence::lemma_digest_key_not_index(digest@);
                    assert(!cur.contains_key(refcount_key_of(digest@)));
                }
                self.stats.remove_unique_chunk(size);
                proof {
                    assert forall|k: Seq<char>| !is_meta_key(k) implies #[trigger] self.backend.stored().contains_key(k)
                        == s_del.contains_key(k) && (s_del.contains_key(k) ==> s_del[k] == self.backend.stored()[k]) by {
                        assert(blobs_same(s_del, self.backend.stored()));
                    }
                }
            } else {
                proof {
                    crate::store::persistence::lemma_digest_key_not_index(digest@);
                    if old(self).reliable() && indexes_readable(s0) {
                        crate::store::persistence::lemma_list_readable_other_key(
                            s_mid,
                            refcount_index_key(),
                            refcount_key_of(digest@),
                            decimal_bytes(remaining as nat),
                        );
                    }
                }
                save_refcount(&mut self.backend, digest, remaining)?;
                proof {
                    let cur = self.backend.stored();
                    assert forall|d: Seq<char>| is_digest_text(d) && d != digest@ implies #[trigger]
                        crate::store::persistence::agree_at(s_before, cur, refcount_key_of(d)) by {
                        lemma_count_key_untouched(d, digest@);
                    }
                    assert(cur.contains_key(refcount_key_of(digest@)));
                    assert(cur[refcount_key_of(digest@)] == decimal_bytes(remaining as nat));
                    lemma_manifest_keys_same_trans(s0, s_mid, self.backend.stored());
                    assert forall|k: Seq<char>| !is_meta_key(k) implies #[trigger] self.backend.stored().contains_key(k)
                        == s_mid.contains_key(k) && (s_mid.contains_key(k) ==> s_mid[k] == self.backend.stored()[k]) by {
                        assert(blobs_same(s_mid, self.backend.stored()));
                    }
                }
            }
            self.stats.remove_reference(size);
            proof {
                if stats_match(st0, rcv0, s0) {
                    lemma_release_one_match(st_before, rcv_before, s_before, digest@, rcv_mid, self.stats, self.backend.stored());
                }
            }
            proof {
                let p2 = ds.take(i + 1);
                assert forall|d: Seq<char>| #[trigger]
                    count_of(self.refcount@, d) == count_of(rc0, d) - occurrences(p2, d) by {
                    crate::store::manifest::lemma_occurrences_push(p, digest@, d);
                    assert(count_of(rc_before, d) == count_of(rc0, d) - occurrences(p, d));
                }
                assert(s_before.contains_key(digest@));
                assert(s0.contains_key(digest@) && s_before[digest@] == s0[digest@]);
                assert(count_of(rc_before, digest@) == count_of(rc0, digest@) - occurrences(p, digest@));
                assert forall|k: Seq<char>| p2.contains(k) implies (k == digest@ || p.contains(k)) by {
                    let q = choose|q: int| 0 <= q < p2.len() && p2[q] == k;
                    if q < p.len() {
                        assert(p[q] == k);
                    }
                }
                assert forall|k: Seq<char>| p.contains(k) implies p2.contains(k) by {
                    let q = choose|q: int| 0 <= q < p.len() && p[q] == k;
                    assert(p2[q] == k);
                }
                assert(p2[i as int] == digest@);
                crate::store::manifest::lemma_occurrences_push(p, digest@, digest@);
                assert(self.stats == released_stats(st0, s0, rc0, p2));
                assert forall|d: Seq<char>| p2.contains(d) implies #[trigger] s0.contains_key(d) by {
                    if d != digest@ {
                        assert(p.contains(d));
                    }
                }
                let cur = self.backend.stored();
                let rc1 = self.refcount@;
                assert forall|d: Seq<char>| #[trigger] p2.contains(d) implies (if rc1.contains_key(d) {
                    cur.contains_key(refcount_key_of(d)) && cur[refcount_key_of(d)] == decimal_bytes(rc1[d] as nat)
                } else {
                    !cur.contains_key(refcount_key_of(d))
                }) by {
                    if d != digest@ {
                        assert(p.contains(d));
                        let q = choose|q: int| 0 <= q < p.len() && p[q] == d;
                        assert(digests@[q]@ == d);
                        assert(is_digest_text(d));
                        assert(crate::store::persistence::agree_at(s_before, cur, refcount_key_of(d)));
                        assert(rc1.contains_key(d) == rc_before.contains_key(d));
                    }
                }
            }
            i = i + 1;
        }
        proof {
            assert(ds.take(n as int) =~= ds);
        }
        Ok(())
    }

    /// Store `chunks` as the content of `file_id`, replacing any earlier version;
    /// returns the chunks' digests in order.
    #[verifier::spinoff_prover]
    pub fn ingest_chunks(&mut self, file_id: &str, chunks: &[Vec<u8>]) -> (r: Result<
        Vec<String>,
        ChunkStoreError,
    >)
        requires
            old(self).valid(),
            old(self).ingest_fits(file_id@, chunk_views(chunks@)),
        ensures
            final(self).valid(),
            final(self).reliable() == old(self).reliable(),
            file_id@.len() == 0 ==> r is Err,
            old(self).ingest_succeeds(file_id@) ==> r is Ok,
            old(self).ingest_runs(file_id@) ==> (r is Ok <==> file_id@.len() > 0),
            old(self).ingest_runs(file_id@) && file_id@.len() == 0 ==> (r matches Err(e) && e is InvalidArgument),
            file_id@.len() == 0 ==> final(self).files() == old(self).files(),
            file_id@.len() == 0 && old(self).reliable() && indexes_readable(old(self).stored()) ==> (r matches Err(
                e,
            ) && e is InvalidArgument) && manifest_keys_same(
                old(self).stored(),
                final(self).stored(),
            ),
            final(self).files().remove(file_id@) == old(self).files().remove(file_id@),
            r matches Ok(ds) ==> Self::ingest_post(
                *old(self),
                *final(self),
                file_id@,
                chunk_views(chunks@),
                strings_view(ds@),
            ),
    {
        let ghost wf0 = self.wf();
        let ghost s0 = self.backend.stored();
        let ghost rc0 = self.refcount@;
        let ghost st0 = self.stats;
        let ghost m0 = self.manifest@;
        let ghost old_ds = self.digests_of(file_id@);
        let ghost new_ds = chunk_digests(chunks@);
        let ghost dur0 = self.durable() && file_id@ != index_name();
        let ghost sc0 = self.stats_consistent() && no_collision(s0, chunk_views(chunks@));
        let ghost good = self.ingest_runs(file_id@);
        let ghost rd = self.reliable() && indexes_readable(s0);
        proof {
            lemma_total_len_concat(chunks@);
            assert(piece_digests(chunk_views(chunks@)) =~= new_ds);
        }
        proof {
            if file_id@.len() == 0 {
                assert(file_id@ =~= Seq::<char>::empty());
                assert(!m0.contains_key(file_id@));
            }
        }
        let old_digests = match self.manifest.try_get(file_id) {
            Some(ds) => Some(clone_strings(ds)),
            None => None,
        };
        proof {
            if !m0.contains_key(file_id@) {
                assert(self.digests_of(file_id@) == Seq::<Seq<char>>::empty());
            }
        }
        if let Some(old) = old_digests {
            proof {
                assert(strings_view(old@) == old_ds);
                assert forall|q: int| 0 <= q < old@.len() implies is_digest_text(#[trigger] old@[q]@) by {
                    assert(old@[q]@ == m0[file_id@].0[q]);
                }
            }
            proof {
                if good {
                    assert forall|d: Seq<char>| #[trigger] occurrences(old_ds, d) <= count_of(rc0, d) by {
                        self.manifest.lemma_refs_cover_file(file_id@, d);
                    }
                    assert forall|d: Seq<char>| old_ds.contains(d) implies #[trigger] s0.contains_key(d) by {
                        let q = choose|q: int| 0 <= q < old_ds.len() && old_ds[q] == d;
                        self.lemma_wf_files_stored(file_id@, q);
                    }
                    assert(Self::release_succeeds(*self, strings_view(old@)));
                }
            }
            self.release_digests(old.as_slice())?;
            let ghost s_rel = self.backend.stored();
            proof {
                if dur0 {
                    lemma_holds_manifest_frame(s0, s_rel, m0);
                }
                if good {
                    crate::store::persistence::lemma_list_readable_remove(
                        s_rel,
                        manifest_index_key(),
                        manifest_key_of(file_id@),
                    );
                }
            }
            remove_manifest(&mut self.backend, file_id)?;
            proof {
                let cur = self.backend.stored();
                assert forall|k: Seq<char>| #[trigger] cur.contains_key(k) && !s0.contains_key(k) implies ingest_key(
                    k,
                    file_id@,
                    old_ds,
                    new_ds,
                ) by {
                    if k != manifest_index_key() {
                        assert(s_rel.contains_key(k));
                        if k != refcount_index_key() {
                            let d = choose|d: Seq<char>| strings_view(old@).contains(d) && k == #[trigger] refcount_key_of(d);
                            assert(old_ds.contains(d));
                        }
                    }
                }
                if dur0 {
                    lemma_holds_counts_frame(s_rel, self.backend.stored(), self.refcount@);
                    assert(holds_manifest(self.backend.stored(), m0.remove(file_id@)));
                }
                if sc0 {
                    lemma_stats_match_frame(self.stats, self.refcount, s_rel, self.backend.stored());
                }
            }
            proof {
                assert forall|k: Seq<char>| !is_meta_key(k) implies (#[trigger] self.backend.stored().contains_key(k)
                    == s_rel.contains_key(k) && (s_rel.contains_key(k) ==> s_rel[k] == self.backend.stored()[k])) by {
                    assert(blobs_same(s_rel, self.backend.stored()));
                }
            }
        } else {
            proof {
                assert(old_ds =~= Seq::<Seq<char>>::empty());
                assert forall|d: Seq<char>| #[trigger] count_of(self.refcount@, d) == count_of(rc0, d) - occurrences(old_ds, d) by {}
                assert forall|d: Seq<char>| !old_ds.contains(d) by {}
                assert(m0.remove(file_id@) =~= m0);
            }
        }
        // State after the earlier version (if any) has been released.
        let ghost s_r = self.backend.stored();
        let ghost rc_r = self.refcount@;
        let ghost st_r = self.stats;
        proof {
            self.refcount.lemma_counts_positive();
            assert(st_r == released_stats(st0, s0, rc0, old_ds));
            assert(forall|k: Seq<char>|
                !is_meta_key(k) && #[trigger] s_r.contains_key(k) ==> s0.contains_key(k) && s_r[k] == s0[k]);
            assert(forall|k: Seq<char>|
                !is_meta_key(k) && #[trigger] s0.contains_key(k) && !(old_ds.contains(k) && !rc_r.contains_key(k))
                    ==> s_r.contains_key(k));
            assert(forall|d: Seq<char>|
                old_ds.contains(d) && !#[trigger] rc_r.contains_key(d) ==> !s_r.contains_key(d));
            assert(dur0 ==> holds_manifest(s_r, m0.remove(file_id@)) && holds_counts(s_r, rc_r));
            if sc0 {
                assert(stats_match(self.stats, self.refcount, s_r));
                assert forall|q: int| 0 <= q < chunks@.len() && #[trigger] s_r.contains_key(new_ds[q]) implies s_r[new_ds[q]]
                    == chunks@[q]@ by {
                    assert(new_ds[q] == digest_of(chunks@[q]@));
                    assert(chunk_views(chunks@)[q] == chunks@[q]@);
                    lemma_digest_of_not_meta(chunks@[q]@);
                    assert(s0.contains_key(new_ds[q]) && s_r[new_ds[q]] == s0[new_ds[q]]);
                }
            }
            assert forall|x: Seq<char>| #[trigger] crate::store::persistence::agree_at(s_r, s_r, manifest_key_of(x)) by {}
        }
        let n = chunks.len();
        let mut digests: Vec<String> = Vec::new();
        let mut i: usize = 0;
        while i < n
            invariant
                n == chunks@.len(),
                i <= n,
                self.valid(),
                self.manifest == old(self).manifest,
                self.manifest@ == m0,
                self.reliable() == old(self).reliable(),
                good == old(self).ingest_runs(file_id@),
                rd == (old(self).reliable() && indexes_readable(s0)),
                s0 == old(self).backend.stored(),
                rd ==> self.reliable() && indexes_readable(self.backend.stored()),
                forall|k: Seq<char>|
                    #[trigger] self.backend.stored().contains_key(k) && !s0.contains_key(k) ==> ingest_key(
                        k,
                        file_id@,
                        old_ds,
                        new_ds,
                    ),
                file_id@.len() == 0 ==> s_r == s0,
                new_ds == chunk_digests(chunks@),
                strings_view(digests@) == new_ds.take(i as int),
                forall|q: int| 0 <= q < digests@.len() ==> is_lower_digest(#[trigger] digests@[q]@),
                forall|d: Seq<char>| #[trigger]
                    count_of(self.refcount@, d) == count_of(rc_r, d) + occurrences(new_ds.take(i as int), d),
                forall|d: Seq<char>|
                    count_of(rc0, d) - occurrences(old_ds, d) + occurrences(new_ds, d) <= u64::MAX,
                forall|d: Seq<char>| #[trigger] count_of(rc_r, d) == count_of(rc0, d) - occurrences(old_ds, d),
                forall|k: Seq<char>|
                    !is_meta_key(k) && #[trigger] self.backend.stored().contains_key(k) ==> (s_r.contains_key(k)
                        && self.backend.stored()[k] == s_r[k]) || (!s_r.contains_key(k) && exists|m: int|
                        0 <= m < i && new_ds[m] == k && self.backend.stored()[k] == chunks@[m]@),
                forall|k: Seq<char>|
                    !is_meta_key(k) && #[trigger] s_r.contains_key(k) ==> self.backend.stored().contains_key(k),
                forall|m: int| 0 <= m < i ==> self.backend.stored().contains_key(#[trigger] new_ds[m]),
                self.stats.total_bytes == st_r.total_bytes + total_len(chunks@.take(i as int)),
                st_r.stored_bytes <= self.stats.stored_bytes <= st_r.stored_bytes + total_len(chunks@.take(i as int)),
                st_r.total_bytes + total_len(chunks@) <= u64::MAX,
                st_r.stored_bytes + total_len(chunks@) <= u64::MAX,
                manifest_keys_same(s_r, self.backend.stored()),
                holds_counts(s_r, rc_r) ==> holds_counts(self.backend.stored(), self.refcount@),
                sc0 ==> no_collision(s0, chunk_views(chunks@)),
                sc0 ==> forall|q: int|
                    0 <= q < chunks@.len() && #[trigger] s_r.contains_key(new_ds[q]) ==> s_r[new_ds[q]] == chunks@[q]@,
                sc0 ==> stats_match(self.stats, self.refcount, self.backend.stored()),
            decreases n - i,
        {
            let chunk = chunks[i].as_slice();
            let digest = digest_hex(chunk);
            proof {
                lemma_total_len_take(chunks@, i as int);
                lemma_total_len_prefix_le(chunks@, i + 1);
                assert(new_ds[i as int] == digest@);
                assert(new_ds.take(i + 1) =~= new_ds.take(i as int).push(digest@));
                crate::store::manifest::lemma_occurrences_push(new_ds.take(i as int), digest@, digest@);
                lemma_occurrences_prefix_le(new_ds, i + 1, digest@);
                lemma_lower_digest_is_digest_text(digest@);
            }
            let ghost s_before = self.backend.stored();
            let ghost rc_before = self.refcount@;
            proof {
                if sc0 && s_before.contains_key(digest@) {
                    lemma_lower_digest_is_digest_text(digest@);
                    if !(s_r.contains_key(digest@) && s_before[digest@] == s_r[digest@]) {
                        let m = choose|m: int| 0 <= m < i && new_ds[m] == digest@ && s_before[digest@] == chunks@[m]@;
                        assert(chunk_views(chunks@)[m] == chunks@[m]@);
                        assert(chunk_views(chunks@)[i as int] == chunks@[i as int]@);
                        assert(new_ds[m] == digest_of(chunks@[m]@));
                    }
                    assert(s_before[digest@] == chunk@);
                }
            }
            self.store_chunk(digest.as_str(), chunk)?;
            proof {
                lemma_manifest_keys_same_trans(s_r, s_before, self.backend.stored());
                let cur = self.backend.stored();
                assert(new_ds.contains(digest@));
                assert forall|k: Seq<char>| #[trigger] cur.contains_key(k) && !s0.contains_key(k) implies ingest_key(
                    k,
                    file_id@,
                    old_ds,
                    new_ds,
                ) by {
                    if !s_before.contains_key(k) && k == refcount_key_of(digest@) {
                        assert(new_ds.contains(digest@) && k == refcount_key_of(digest@));
                    }
                }
            }
            let ghost prev = digests@;
            digests.push(digest);
            proof {
                assert(strings_view(digests@) =~= strings_view(prev).push(digests@[i as int]@));
                assert forall|d: Seq<char>| #[trigger]
                    count_of(self.refcount@, d) == count_of(rc_r, d) + occurrences(new_ds.take(i + 1), d) by {
                    crate::store::manifest::lemma_occurrences_push(new_ds.take(i as int), digest@, d);
                    assert(count_of(rc_before, d) == count_of(rc_r, d) + occurrences(new_ds.take(i as int), d));
                }
                let sb = s_before;
                let sa = self.backend.stored();
                assert forall|k: Seq<char>|
                    !is_meta_key(k) && #[trigger] sa.contains_key(k) implies (s_r.contains_key(k)
                        && sa[k] == s_r[k]) || (!s_r.contains_key(k) && exists|m: int|
                        0 <= m < i + 1 && new_ds[m] == k && sa[k] == chunks@[m]@) by {
                    if k == digest@ && !sb.contains_key(k) {
                        assert(new_ds[i as int] == k);
                        assert(!s_r.contains_key(k));
                    } else {
                        assert(sb.contains_key(k));
                        if !(s_r.contains_key(k) && sb[k] == s_r[k]) {
                            let m = choose|m: int| 0 <= m < i && new_ds[m] == k && sb[k] == chunks@[m]@;
                            assert(0 <= m < i + 1 && new_ds[m] == k && sa[k] == chunks@[m]@);
                        }
                    }
                }
                assert forall|m: int| 0 <= m < i + 1 implies sa.contains_key(#[trigger] new_ds[m]) by {
                    if m < i {
                        assert(new_ds.take(i as int)[m] == new_ds[m]);
                        assert(strings_view(prev)[m] == prev[m]@);
                        assert(is_lower_digest(prev[m]@));
                        lemma_lower_digest_is_digest_text(new_ds[m]);
                        assert(sb.contains_key(new_ds[m]));
                    }
                }
                assert(chunks@.take(i + 1).drop_last() =~= chunks@.take(i as int));
            }
            i = i + 1;
        }
        proof {
            assert(chunks@.take(n as int) =~= chunks@);
            assert(new_ds.take(n as int) =~= new_ds);
        }
        let mut file_bytes: u64 = 0;
        let mut j: usize = 0;
        while j < n
            invariant
                n == chunks@.len(),
                j <= n,
                total_len(chunks@) <= u64::MAX,
                file_bytes == total_len(chunks@.take(j as int)),
            decreases n - j,
        {
            proof {
                lemma_total_len_take(chunks@, j as int);
                lemma_total_len_prefix_le(chunks@, j + 1);
            }
            file_bytes = file_bytes + chunks[j].len() as u64;
            j = j + 1;
        }
        let copy = clone_strings(digests.as_slice());
        self.manifest.insert(file_id, copy, file_bytes)?;
        let ghost s_m = self.backend.stored();
        proof {
            assert(self.files().remove(file_id@) =~= old(self).files().remove(file_id@));
            if good {
                crate::store::persistence::lemma_prefixed_injective(
                    crate::store::persistence::manifest_prefix(),
                    file_id@,
                    index_name(),
                );
                crate::store::persistence::lemma_list_readable_other_key(
                    s_m,
                    manifest_index_key(),
                    manifest_key_of(file_id@),
                    record_bytes(strings_view(digests@), file_bytes),
                );
                assert forall|q: int| 0 <= q < digests@.len() implies is_digest_text(#[trigger] digests@[q]@) by {
                    lemma_lower_digest_is_digest_text(digests@[q]@);
                }
            }
        }
        save_manifest(&mut self.backend, file_id, digests.as_slice(), file_bytes)?;
        proof {
            let s1 = self.backend.stored();
            assert forall|k: Seq<char>| #[trigger] s1.contains_key(k) && !s0.contains_key(k) implies ingest_key(
                k,
                file_id@,
                old_ds,
                new_ds,
            ) by {
                if k != manifest_index_key() && k != manifest_key_of(file_id@) {
                    assert(s_m.contains_key(k));
                }
            }
            assert forall|k: Seq<char>| !is_meta_key(k) && #[trigger] s1.contains_key(k) implies s0.contains_key(k)
                || new_ds.contains(k) by {
                assert(s_m.contains_key(k) == s1.contains_key(k));
                if !(s_r.contains_key(k) && s_m[k] == s_r[k]) {
                    let m = choose|m: int| 0 <= m < n && new_ds[m] == k && s_m[k] == chunks@[m]@;
                    assert(new_ds[m] == k);
                }
            }
            if no_collision(s0, chunk_views(chunks@)) {
                assert forall|k: Seq<char>| !is_meta_key(k) && s0.contains_key(k) && #[trigger] s1.contains_key(k)
                    implies s1[k] == s0[k] by {
                    assert(s_m.contains_key(k) == s1.contains_key(k));
                    if !(s_r.contains_key(k) && s_m[k] == s_r[k]) {
                        let m = choose|m: int| 0 <= m < n && new_ds[m] == k && s_m[k] == chunks@[m]@;
                        assert(chunk_views(chunks@)[m] == chunks@[m]@);
                        assert(new_ds[m] == digest_of(chunks@[m]@));
                    }
                }
            }
            assert forall|k: Seq<char>| !is_meta_key(k) && s0.contains_key(k) && !#[trigger] s1.contains_key(k)
                implies old_ds.contains(k) && !self.refcount@.contains_key(k) by {
                assert(s_m.contains_key(k) == s1.contains_key(k));
                assert(!s_r.contains_key(k));
                assert(old_ds.contains(k) && !rc_r.contains_key(k));
                if new_ds.contains(k) {
                    let q = choose|q: int| 0 <= q < new_ds.len() && new_ds[q] == k;
                    assert(s_m.contains_key(new_ds[q]));
                }
                crate::store::manifest::lemma_occurrences_contains(new_ds, k);
                assert(count_of(self.refcount@, k) == count_of(rc_r, k) + occurrences(new_ds, k));
                self.refcount.lemma_counts_positive();
            }
        }
        proof {
            if sc0 {
                lemma_stats_match_frame(self.stats, self.refcount, s_m, self.backend.stored());
                assert(self.stats_consistent());
                self.lemma_consistent_sums();
            }
            if dur0 {
                let s1 = self.backend.stored();
                lemma_holds_manifest_frame(s_r, s_m, m0.remove(file_id@));
                assert(holds_manifest(s1, m0.remove(file_id@).insert(file_id@, (strings_view(digests@), file_bytes))));
                assert(m0.remove(file_id@).insert(file_id@, (strings_view(digests@), file_bytes)) =~= self.manifest@);
                lemma_holds_counts_frame(s_m, s1, self.refcount@);
                assert(self.durable());
            }
        }
        proof {
            let s1 = self.backend.stored();
            let m1 = self.manifest@;
            assert(m1 == m0.insert(file_id@, (new_ds, file_bytes)));
            assert(self.files() =~= old(self).files().insert(file_id@, new_ds));
            assert(piece_digests(chunk_views(chunks@)) =~= new_ds);
            assert(self.file_sizes() =~= old(self).file_sizes().insert(file_id@, total_len(chunks@) as u64));
            assert forall|q: int| 0 <= q < digests@.len() implies is_lower_digest(#[trigger] digests@[q]@) by {}
            assert forall|q: int| 0 <= q < chunks@.len() implies s1.contains_key(#[trigger] new_ds[q]) by {
                assert(strings_view(digests@)[q] == digests@[q]@);
                lemma_lower_digest_is_digest_text(new_ds[q]);
                assert(s_m.contains_key(new_ds[q]));
            }
            assert(manifest_digests_valid(m1)) by {
                assert forall|k: Seq<char>, q: int| m1.contains_key(k) && 0 <= q < m1[k].0.len()
                    implies is_digest_text(#[trigger] m1[k].0[q]) by {
                    if k == file_id@ {
                        assert(strings_view(digests@)[q] == digests@[q]@);
                        lemma_lower_digest_is_digest_text(m1[k].0[q]);
                    } else {
                        assert(m0.contains_key(k));
                    }
                }
            }
            assert(old_ds == (if m0.contains_key(file_id@) { m0[file_id@].0 } else { Seq::empty() }));
            assert forall|d: Seq<char>| #[trigger] count_of(self.refcount@, d) == count_of(rc0, d) - occurrences(old_ds, d) + occurrences(new_ds, d) by {
                assert(count_of(rc_r, d) == count_of(rc0, d) - occurrences(old_ds, d));
            }
            assert forall|d: Seq<char>| #[trigger] self.manifest.refs(d) == old(self).manifest.refs(d) - occurrences(old_ds, d) + occurrences(new_ds, d) by {
                if !m0.contains_key(file_id@) {
                    assert(occurrences(old_ds, d) == 0);
                }
            }
            if wf0 {
                self.refcount.lemma_counts_positive();
                old(self).refcount.lemma_counts_positive();
                // Counts agree with references.
                assert forall|d: Seq<char>| #[trigger] count_of(self.refcount@, d) == self.manifest.refs(d) by {
                    assert(count_of(rc0, d) == old(self).manifest.refs(d));
                }
                assert forall|d: Seq<char>| #[trigger] self.refcount@.contains_key(d) == (self.manifest.refs(d) > 0) by {
                    assert(count_of(self.refcount@, d) == self.manifest.refs(d));
                }
                assert forall|d: Seq<char>| #[trigger] self.refcount@.contains_key(d) implies self.refcount@[d] == self.manifest.refs(d) by {
                    assert(count_of(self.refcount@, d) == self.manifest.refs(d));
                }
                // Referenced chunks are stored.
                assert forall|d: Seq<char>| #[trigger] self.refcount@.contains_key(d) implies s1.contains_key(d) && is_lower_digest(d) by {
                    assert(count_of(self.refcount@, d) > 0);
                    if occurrences(new_ds, d) > 0 {
                        crate::store::manifest::lemma_occurrences_contains(new_ds, d);
                        let q = choose|q: int| 0 <= q < new_ds.len() && new_ds[q] == d;
                        assert(s1.contains_key(new_ds[q]));
                        assert(strings_view(digests@)[q] == digests@[q]@);
                    } else {
                        assert(count_of(rc_r, d) > 0);
                        assert(rc0.contains_key(d));
                        assert(s0.contains_key(d) && is_lower_digest(d));
                        lemma_lower_digest_is_digest_text(d);
                        assert(rc_r.contains_key(d));
                        assert(s_r.contains_key(d));
                        assert(s_m.contains_key(d));
                    }
                }
                // Content addressing.
                assert forall|k: Seq<char>| #[trigger] s1.contains_key(k) && is_lower_digest(k) implies digest_of(s1[k]) == k by {
                    lemma_lower_digest_is_digest_text(k);
                    assert(s_m.contains_key(k));
                    if s_r.contains_key(k) && s_m[k] == s_r[k] {
                        assert(s0.contains_key(k) && s_r[k] == s0[k]);
                    } else {
                        let m = choose|m: int| 0 <= m < n && new_ds[m] == k && s_m[k] == chunks@[m]@;
                        assert(new_ds[m] == digest_of(chunks@[m]@));
                    }
                }
                assert(self.wf());
                // Reading the file back.
                if no_collision(s0, chunk_views(chunks@)) {
                    let f = |d: Seq<char>| s1[d];
                    assert forall|q: int| 0 <= q < n implies #[trigger] new_ds.map_values(f)[q] == chunk_views(chunks@)[q] by {
                        let k = new_ds[q];
                        assert(k == digest_of(chunks@[q]@));
                        assert(strings_view(digests@)[q] == digests@[q]@);
                        lemma_lower_digest_is_digest_text(k);
                        assert(s_m.contains_key(k));
                        if s_r.contains_key(k) && s_m[k] == s_r[k] {
                            assert(s0.contains_key(k) && s_r[k] == s0[k]);
                        } else {
                            let m = choose|m: int| 0 <= m < n && new_ds[m] == k && s_m[k] == chunks@[m]@;
                            assert(digest_of(chunks@[m]@) == digest_of(chunks@[q]@));
                        }
                    }
                    assert(new_ds.map_values(f) =~= chunk_views(chunks@));
                    assert(self.files()[file_id@] == new_ds);
                }
                // Other files keep their bytes.
                assert forall|id: Seq<char>| id != file_id@ && #[trigger] self.files().contains_key(id) implies self.content(id) == old(self).content(id) by {
                    let ds2 = old(self).files()[id];
                    assert(self.files()[id] == ds2);
                    assert forall|q: int| 0 <= q < ds2.len() implies #[trigger] s1[ds2[q]] == s0[ds2[q]] && s1.contains_key(ds2[q]) by {
                        let d = ds2[q];
                        old(self).lemma_wf_files_stored(id, q);
                        crate::store::manifest::lemma_occurrences_contains(ds2, d);
                        assert(ds2.contains(d));
                        assert(ds2 == m0[id].0);
                        if m0.contains_key(file_id@) {
                            old(self).manifest.lemma_refs_cover_two_files(file_id@, id, d);
                        } else {
                            old(self).manifest.lemma_refs_cover_file(id, d);
                        }
                        assert(count_of(rc_r, d) > 0);
                        assert(rc_r.contains_key(d));
                        assert(is_lower_digest(d));
                        lemma_lower_digest_is_digest_text(d);
                        assert(s_r.contains_key(d) && s_r[d] == s0[d]);
                        assert(s_m.contains_key(d));
                    }
                    let f1 = |d: Seq<char>| s1[d];
                    let f0 = |d: Seq<char>| s0[d];
                    assert(ds2.map_values(f1) =~= ds2.map_values(f0));
                }
                // Chunks of the earlier version that lost their last reference are gone.
                assert forall|d: Seq<char>| old_ds.contains(d) && !#[trigger] self.refcount@.contains_key(d) implies !s1.contains_key(d) by {
                    assert(count_of(self.refcount@, d) == 0);
                    assert(count_of(rc_r, d) == 0);
                    assert(!rc_r.contains_key(d));
                    assert(!s_r.contains_key(d));
                    let q = choose|q: int| 0 <= q < old_ds.len() && old_ds[q] == d;
                    assert(m0.contains_key(file_id@));
                    assert(is_digest_text(m0[file_id@].0[q]));
                    lemma_digest_not_meta(d);
                    if s_m.contains_key(d) {
                        let m = choose|m: int| 0 <= m < n && new_ds[m] == d && s_m[d] == chunks@[m]@;
                        assert(new_ds.contains(d));
                        crate::store::manifest::lemma_occurrences_contains(new_ds, d);
                    }
                }
            }
        }
        Ok(digests)
    }

    /// What a successful delete of `file_id` leaves: the file is gone, each of
    /// its digests loses one reference, the statistics release them, and only
    /// chunks that lost their last reference are deleted; nothing else is
    /// overwritten, and a consistent, durable or matching store stays so.
    pub open spec fn delete_post(s0: Self, s1: Self, file_id: Seq<char>) -> bool {
        let st0 = s0.stored();
        let st1 = s1.stored();
        let ds = s0.files()[file_id];
        &&& s0.files().contains_key(file_id)
        &&& s1.files() == s0.files().remove(file_id)
        &&& s1.file_sizes() == s0.file_sizes().remove(file_id)
        &&& forall|d: Seq<char>| #[trigger]
            count_of(s1.refcounts(), d) == count_of(s0.refcounts(), d) - occurrences(ds, d)
        &&& s1.stats_view() == released_stats(s0.stats_view(), st0, s0.refcounts(), ds)
        &&& forall|k: Seq<char>|
            !is_meta_key(k) && st0.contains_key(k) && !#[trigger] st1.contains_key(k) ==> ds.contains(k)
                && !s1.refcounts().contains_key(k)
        &&& forall|k: Seq<char>| !is_meta_key(k) && #[trigger] st1.contains_key(k) ==> st0.contains_key(k)
        &&& blobs_kept(st0, st1)
        &&& s0.wf() ==> s1.wf()
        &&& s0.durable() ==> s1.durable()
        &&& s0.stats_consistent() ==> s1.stats_consistent() && s1.stats_are_sums()
        &&& s0.wf() ==> forall|id: Seq<char>| #[trigger]
            s1.files().contains_key(id) ==> s1.content(id) == s0.content(id)
        &&& s0.wf() ==> forall|d: Seq<char>|
            ds.contains(d) && !#[trigger] s1.refcounts().contains_key(d) ==> !st1.contains_key(d)
    }

    /// Delete a file and garbage-collect the chunks that lose their last reference.
    #[verifier::spinoff_prover]
    pub fn delete(&mut self, file_id: &str) -> (r: Result<(), ChunkStoreError>)
        requires
            old(self).valid(),
        ensures
            final(self).valid(),
            final(self).reliable() == old(self).reliable(),
            old(self).reliable() && old(self).wf() && indexes_readable(old(self).stored())
                && old(self).files().contains_key(file_id@) ==> r is Ok,
            old(self).files().contains_key(file_id@) ==> final(self).files() == old(self).files().remove(file_id@),
            old(self).reliable() && r is Ok && indexes_readable(old(self).stored()) ==> indexes_readable(final(self).stored()),
            !old(self).files().contains_key(file_id@) ==> (r matches Err(e) && e is NotFound),
            !old(self).files().contains_key(file_id@) ==> {
                &&& final(self).files() == old(self).files()
                &&& final(self).stored() == old(self).stored()
                &&& final(self).refcounts() == old(self).refcounts()
                &&& final(self).stats_view() == old(self).stats_view()
            },
            r is Ok ==> Self::delete_post(*old(self), *final(self), file_id@),
    {
        let ghost wf0 = self.wf();
        let ghost dur0 = self.durable();
        let ghost sc0 = self.stats_consistent();
        let ghost s0 = self.backend.stored();
        let ghost m0 = self.manifest@;
        let ghost good = self.reliable() && self.wf() && indexes_readable(self.stored());
        let digests = self.manifest.remove(file_id)?;
        let ghost ds = strings_view(digests@);
        proof {
            assert(self.files() =~= old(self).files().remove(file_id@));
            if good {
                crate::store::persistence::lemma_list_readable_remove(
                    s0,
                    manifest_index_key(),
                    manifest_key_of(file_id@),
                );
            }
        }
        proof {
            assert(ds == m0[file_id@].0);
            assert forall|q: int| 0 <= q < digests@.len() implies is_digest_text(#[trigger] digests@[q]@) by {
                assert(digests@[q]@ == m0[file_id@].0[q]);
            }
            assert(manifest_digests_valid(self.manifest@)) by {
                assert forall|k: Seq<char>, q: int| self.manifest@.contains_key(k) && 0 <= q < self.manifest@[k].0.len()
                    implies is_digest_text(#[trigger] self.manifest@[k].0[q]) by {
                    assert(m0.contains_key(k));
                }
            }
        }
        remove_manifest(&mut self.backend, file_id)?;
        let ghost s_mid = self.backend.stored();
        proof {
            if dur0 {
                assert(file_id@ != index_name());
                assert(holds_manifest(s_mid, m0.remove(file_id@)));
                lemma_holds_counts_frame(s0, s_mid, self.refcount@);
            }
            if sc0 {
                lemma_stats_match_frame(self.stats, self.refcount, s0, s_mid);
            }
        }
        proof {
            assert forall|k: Seq<char>| !is_meta_key(k) implies (#[trigger] s_mid.contains_key(k)
                == s0.contains_key(k) && (s0.contains_key(k) ==> s0[k] == s_mid[k])) by {
                assert(blobs_same(s0, s_mid));
            }
            if good {
                assert forall|d: Seq<char>| #[trigger] occurrences(ds, d) <= count_of(self.refcount@, d) by {
                    old(self).manifest.lemma_refs_cover_file(file_id@, d);
                }
                assert forall|d: Seq<char>| ds.contains(d) implies #[trigger] s_mid.contains_key(d) by {
                    let q = choose|q: int| 0 <= q < ds.len() && ds[q] == d;
                    old(self).lemma_wf_files_stored(file_id@, q);
                    assert(digests@[q]@ == d);
                    lemma_digest_not_meta(d);
                }
                assert(Self::release_succeeds(*self, ds));
            }
        }
        self.release_digests(digests.as_slice())?;
        proof {
            if dur0 {
                lemma_holds_manifest_frame(s_mid, self.backend.stored(), self.manifest@);
                assert(self.durable());
            }
        }
        proof {
            let s1 = self.backend.stored();
            assert(self.files() =~= old(self).files().remove(file_id@));
            assert(self.file_sizes() =~= old(self).file_sizes().remove(file_id@));
            assert forall|k: Seq<char>| !is_meta_key(k) && #[trigger] s1.contains_key(k) implies s0.contains_key(k)
                && s1[k] == s0[k] by {
                assert(s_mid.contains_key(k));
            }
            assert forall|k: Seq<char>| !is_meta_key(k) && s0.contains_key(k) && !#[trigger] s1.contains_key(k)
                implies ds.contains(k) && !self.refcount@.contains_key(k) by {
                assert(s_mid.contains_key(k));
            }
            assert forall|q: int| 0 <= q < ds.len() implies #[trigger] s_mid[ds[q]] == s0[ds[q]] by {
                assert(ds.contains(ds[q]));
                assert(s_mid.contains_key(ds[q]));
                assert(digests@[q]@ == ds[q]);
                lemma_digest_not_meta(ds[q]);
            }
            lemma_released_stats_sizes(old(self).stats, s_mid, s0, old(self).refcount@, ds);
            assert(self.stats == released_stats(old(self).stats, s0, old(self).refcount@, ds));
            if wf0 {
                self.refcount.lemma_counts_positive();
                old(self).refcount.lemma_counts_positive();
                assert forall|d: Seq<char>| #[trigger] count_of(self.refcount@, d) == self.manifest.refs(d) by {
                    assert(count_of(old(self).refcount@, d) == old(self).manifest.refs(d));
                }
                assert forall|d: Seq<char>| #[trigger] self.refcount@.contains_key(d) == (self.manifest.refs(d) > 0) by {
                    assert(count_of(self.refcount@, d) == self.manifest.refs(d));
                }
                assert forall|d: Seq<char>| #[trigger] self.refcount@.contains_key(d) implies self.refcount@[d] == self.manifest.refs(d) by {
                    assert(count_of(self.refcount@, d) == self.manifest.refs(d));
                }
                assert forall|d: Seq<char>| #[trigger] self.refcount@.contains_key(d) implies s1.contains_key(d) && is_lower_digest(d) by {
                    assert(count_of(old(self).refcount@, d) > 0);
                    assert(old(self).refcount@.contains_key(d));
                    assert(s0.contains_key(d) && is_lower_digest(d));
                    lemma_lower_digest_is_digest_text(d);
                    assert(s_mid.contains_key(d));
                }
                assert forall|k: Seq<char>| #[trigger] s1.contains_key(k) && is_lower_digest(k) implies digest_of(s1[k]) == k by {
                    lemma_lower_digest_is_digest_text(k);
                    assert(s_mid.contains_key(k) && s1[k] == s_mid[k]);
                    assert(s0.contains_key(k) && s0[k] == s_mid[k]);
                }
                assert(self.wf());
                assert forall|id: Seq<char>| #[trigger] self.files().contains_key(id) implies self.content(id) == old(self).content(id) by {
                    let ds2 = self.files()[id];
                    assert(ds2 == old(self).files()[id]);
                    assert forall|q: int| 0 <= q < ds2.len() implies #[trigger] s1[ds2[q]] == s0[ds2[q]] by {
                        let d = ds2[q];
                        self.lemma_wf_files_stored(id, q);
                        assert(is_lower_digest(d));
                        lemma_lower_digest_is_digest_text(d);
                        assert(s_mid.contains_key(d) && s1[d] == s_mid[d]);
                    }
                    let f1 = |d: Seq<char>| s1[d];
                    let f0 = |d: Seq<char>| s0[d];
                    assert(ds2.map_values(f1) =~= ds2.map_values(f0));
                }
            }
        }
        proof {
            if sc0 {
                assert(self.stats_consistent());
                self.lemma_consistent_sums();
            }
        }
        Ok(())
    }

    /// Recomputing the statistics cannot fail: the backend never fails, every
    /// counted chunk is stored, and both totals fit in `u64`.
    pub closed spec fn rebuild_succeeds(st: Self) -> bool {
        &&& st.reliable()
        &&& forall|d: Seq<char>| #[trigger] st.refcounts().contains_key(d) ==> st.stored().contains_key(d)
        &&& st.refcount.weighted(st.stored()) <= u64::MAX
        &&& st.refcount.sized(st.stored()) <= u64::MAX
    }

    /// Recompute the statistics from the reference counts and the stored chunk
    /// sizes; totals that do not fit in `u64` are reported as a backend error.
    fn rebuild_stats(&mut self) -> (r: Result<(), ChunkStoreError>)
        requires
            old(self).valid(),
        ensures
            final(self).valid(),
            final(self).backend == old(self).backend,
            final(self).manifest == old(self).manifest,
            final(self).refcount == old(self).refcount,
            r is Ok ==> final(self).stats.total_bytes == final(self).refcount.weighted(final(self).backend.stored()),
            r is Ok ==> final(self).stats.stored_bytes == final(self).refcount.sized(final(self).backend.stored()),
            Self::rebuild_succeeds(*old(self)) ==> r is Ok,
            r is Err ==> final(self).stats == old(self).stats,
            old(self).reliable() && (exists|d: Seq<char>|
                #[trigger] old(self).refcount@.contains_key(d) && !old(self).backend.stored().contains_key(d))
                ==> (r matches Err(e) && e is NotFound),
            old(self).reliable() && r is Err ==> (r matches Err(e) && ((e is NotFound && exists|d: Seq<char>|
                #[trigger] old(self).refcount@.contains_key(d) && !old(self).backend.stored().contains_key(d)) || (
            e is BackendError && (old(self).refcount.weighted(old(self).backend.stored()) > u64::MAX
                || old(self).refcount.sized(old(self).backend.stored()) > u64::MAX)))),
    {
        let entries = self.refcount.iter();
        let ghost es = count_entries(entries@);
        let ghost s = self.backend.stored();
        let ghost good = Self::rebuild_succeeds(*old(self));
        let n = entries.len();
        // First every counted chunk's size, so that a missing chunk is reported
        // before any total is added up.
        let mut sizes: Vec<u64> = Vec::new();
        let mut i: usize = 0;
        while i < n
            invariant
                n == entries@.len(),
                es == count_entries(entries@),
                s == self.backend.stored(),
                self.valid(),
                self.backend == old(self).backend,
                self.manifest == old(self).manifest,
                self.refcount == old(self).refcount,
                self.stats == old(self).stats,
                i <= n,
                sizes@.len() == i,
                forall|j: int| 0 <= j < i ==> s.contains_key(#[trigger] es[j].0) && sizes@[j] == s[es[j].0].len(),
                good == Self::rebuild_succeeds(*old(self)),
                keys_distinct(es),
                assoc_map(es) == self.refcount@,
            decreases n - i,
        {
            proof {
                crate::store::assoc::lemma_assoc_index(es, i as int);
                assert(es[i as int].0 == entries@[i as int].0@);
                assert(self.refcount@.contains_key(es[i as int].0));
                if good {
                    assert(old(self).refcounts().contains_key(es[i as int].0));
                    assert(old(self).stored().contains_key(es[i as int].0));
                    assert(self.reliable());
                }
            }
            let size = self.chunk_size(entries[i].0.as_str())?;
            sizes.push(size);
            i = i + 1;
        }
        proof {
            assert forall|d: Seq<char>| #[trigger] self.refcount@.contains_key(d) implies s.contains_key(d) by {
                let k = crate::store::assoc::key_pos(es, d);
                assert(es[k].0 == d);
            }
        }
        let mut total: u64 = 0;
        let mut stored: u64 = 0;
        let mut i: usize = 0;
        while i < n
            invariant
                n == entries@.len(),
                es == count_entries(entries@),
                s == self.backend.stored(),
                self.valid(),
                self.backend == old(self).backend,
                self.manifest == old(self).manifest,
                self.refcount == old(self).refcount,
                self.stats == old(self).stats,
                i <= n,
                sizes@.len() == n,
                forall|j: int| 0 <= j < n ==> s.contains_key(#[trigger] es[j].0) && sizes@[j] == s[es[j].0].len(),
                forall|d: Seq<char>| #[trigger] self.refcount@.contains_key(d) ==> s.contains_key(d),
                stored == size_total(es.take(i as int), s),
                total == weighted_total(es.take(i as int), s),
                weighted_total(es, s) == self.refcount.weighted(s),
                size_total(es, s) == self.refcount.sized(s),
            decreases n - i,
        {
            let size = sizes[i];
            let count = entries[i].1;
            proof {
                assert(es[i as int] == (entries@[i as int].0@, count));
                assert(es.take(i + 1).drop_last() =~= es.take(i as int));
                lemma_totals_prefix_le(es, i + 1, s);
                assert(weighted_total(es.take(i + 1), s) == total + size * count);
                assert(size_total(es.take(i + 1), s) == stored + size);
            }
            let weighted = match size.checked_mul(count) {
                Some(w) => w,
                None => return Err(ChunkStoreError::backend(String::from_str("chunk sizes overflow the byte totals"))),
            };
            stored = match stored.checked_add(size) {
                Some(v) => v,
                None => return Err(ChunkStoreError::backend(String::from_str("chunk sizes overflow the byte totals"))),
            };
            total = match total.checked_add(weighted) {
                Some(v) => v,
                None => return Err(ChunkStoreError::backend(String::from_str("chunk sizes overflow the byte totals"))),
            };
            i = i + 1;
        }
        proof {
            assert(es.take(n as int) =~= es);
        }
        self.stats = Stats { total_bytes: total, stored_bytes: stored };
        Ok(())
    }

    /// Open a store and load its metadata (`_manifest/`, `_refcount/`) from the backend.
    pub fn open(backend: B) -> (r: Result<Self, ChunkStoreError>)
        ensures
            backend.infallible() ==> forall|mm: Map<Seq<char>, FileRecord>, cc: Map<Seq<char>, u64>|
                #[trigger] opens_cleanly(backend.stored(), mm, cc) ==> r is Ok,
            r matches Ok(st) ==> st.reliable() == backend.infallible(),
            r matches Ok(st) ==> st.loaded_from(backend.stored()),
            r matches Ok(st) ==> exists|l: Seq<Seq<char>>|
                {
                    &&& #[trigger] list_read_as(backend.stored(), manifest_index_key(), l)
                    &&& forall|k: Seq<char>| st.files().contains_key(k) <==> l.contains(k)
                },
            r matches Ok(st) ==> forall|k: Seq<char>| #[trigger]
                st.files().contains_key(k) ==> {
                    &&& backend.stored().contains_key(manifest_key_of(k))
                    &&& forall|ds: Seq<Seq<char>>, n: u64|
                        backend.stored()[manifest_key_of(k)] == #[trigger] record_bytes(ds, n) ==> st.files()[k]
                            == ds && st.file_sizes()[k] == n
                },
            r matches Ok(st) ==> (backend.stored() == Map::<Seq<char>, Seq<u8>>::empty() ==> {
                &&& st.files() == Map::<Seq<char>, Seq<Seq<char>>>::empty()
                &&& st.refcounts() == Map::<Seq<char>, u64>::empty()
                &&& st.stats_view() == Stats { total_bytes: 0, stored_bytes: 0 }
                &&& st.durable()
                &&& st.wf()
                &&& st.stats_consistent()
            }),
            r matches Ok(st) ==> {
                &&& st.valid()
                &&& st.stored() == backend.stored()
                &&& st.refcounts() == persisted_counts(backend.stored()) || st.refcounts() == Map::<
                    Seq<char>,
                    u64,
                >::empty()
            },
    {
        let ghost s = backend.stored();
        let ghost good = backend.infallible() && exists|mm: Map<Seq<char>, FileRecord>, cc: Map<Seq<char>, u64>|
            #[trigger] opens_cleanly(s, mm, cc);
        let ghost (mm, cc) = choose|mm: Map<Seq<char>, FileRecord>, cc: Map<Seq<char>, u64>|
            #[trigger] opens_cleanly(s, mm, cc);
        proof {
            if good {
                assert(crate::store::persistence::manifest_loads(s, mm));
                assert(holds_counts(s, cc));
            }
        }
        let manifest = load_manifests(&backend)?;
        let refcount = load_refcounts(&backend)?;
        let mut store = ChunkStore { backend, manifest, refcount, stats: Stats::default() };
        proof {
            if good {
                assert(refcount@ == cc);
                let rcv = choose|rcv: RefCount|
                    rcv.wf() && rcv@ == cc && rcv.weighted(s) <= u64::MAX && rcv.sized(s) <= u64::MAX;
                refcount.lemma_sums_by_view(&rcv, s);
                assert(Self::rebuild_succeeds(store));
            }
        }
        store.rebuild_stats()?;
        proof {
            let s = store.backend.stored();
            if s == Map::<Seq<char>, Seq<u8>>::empty() {
                crate::store::persistence::lemma_fresh_image(s);
                assert(store.manifest@ == Map::<Seq<char>, FileRecord>::empty());
                assert(store.refcount@ == Map::<Seq<char>, u64>::empty());
                assert(store.files() =~= Map::<Seq<char>, Seq<Seq<char>>>::empty());
                assert forall|d: Seq<char>| #[trigger] store.refcount@.contains_key(d) == (store.manifest.refs(d) > 0) by {
                    store.manifest.lemma_refs_empty(d);
                }
                store.refcount.lemma_sums_empty(s);
                assert(stats_match(store.stats, store.refcount, s));
            }
        }
        Ok(store)
    }

    /// The pieces fit the store's counters with room to spare: both byte totals
    /// stay within `u64` after adding every piece, and so does each piece's
    /// count after adding the number of pieces. This implies
    /// [`Self::ingest_fits`] for any file ID.
    pub open spec fn ingest_bounded(&self, pieces: Seq<Seq<u8>>) -> bool {
        let n = pieces.flatten().len();
        &&& self.stats_view().total_bytes + n <= u64::MAX
        &&& self.stats_view().stored_bytes + n <= u64::MAX
        &&& forall|i: int|
            0 <= i < pieces.len() ==> count_of(self.refcounts(), #[trigger] digest_of(pieces[i])) + pieces.len()
                <= u64::MAX
    }

    /// Pieces within the bounds fit any ingest.
    pub proof fn lemma_bounded_fits(&self, file_id: Seq<char>, pieces: Seq<Seq<u8>>)
        requires
            self.ingest_bounded(pieces),
        ensures
            self.ingest_fits(file_id, pieces),
    {
        let old_ds = self.digests_of(file_id);
        lemma_released_le(self.stats_view(), self.stored(), self.refcounts(), old_ds);
        let new_ds = piece_digests(pieces);
        assert forall|d: Seq<char>|
            count_of(self.refcounts(), d) - occurrences(old_ds, d) + occurrences(new_ds, d) <= u64::MAX by {
            crate::store::manifest::lemma_occurrences_contains(new_ds, d);
            lemma_occurrences_le_len(new_ds, d);
            if occurrences(new_ds, d) > 0 {
                let i = choose|i: int| 0 <= i < new_ds.len() && new_ds[i] == d;
                assert(new_ds[i] == digest_of(pieces[i]));
            }
        }
    }

    /// Ingest `chunks` as [`Self::ingest_chunks`] does, after testing that they
    /// fit the store's counters ([`Self::ingest_bounded`]); chunks that do not
    /// fit are refused with an invalid-argument error and change nothing.
    pub fn try_ingest_chunks(&mut self, file_id: &str, chunks: &[Vec<u8>]) -> (r: Result<
        Vec<String>,
        ChunkStoreError,
    >)
        requires
            old(self).valid(),
        ensures
            final(self).valid(),
            final(self).files().remove(file_id@) == old(self).files().remove(file_id@),
            !old(self).ingest_bounded(chunk_views(chunks@)) ==> (r matches Err(e) && e is InvalidArgument
                && *final(self) == *old(self)),
            old(self).ingest_bounded(chunk_views(chunks@)) && old(self).ingest_succeeds(file_id@) ==> r is Ok,
            r matches Ok(ds) ==> Self::ingest_post(
                *old(self),
                *final(self),
                file_id@,
                chunk_views(chunks@),
                strings_view(ds@),
            ),
    {
        let m = chunks.len();
        proof {
            lemma_total_len_concat(chunks@);
            assert(chunk_views(chunks@).len() == m);
        }
        let mut n: u64 = 0;
        let mut j: usize = 0;
        while j < m
            invariant
                m == chunks@.len(),
                j <= m,
                n == total_len(chunks@.take(j as int)),
                self.valid(),
                *self == *old(self),
                total_len(chunks@) == chunk_views(chunks@).flatten().len(),
            decreases m - j,
        {
            proof {
                lemma_total_len_take(chunks@, j as int);
                lemma_total_len_prefix_le(chunks@, j + 1);
            }
            n = match n.checked_add(chunks[j].len() as u64) {
                Some(v) => v,
                None => {
                    return Err(ChunkStoreError::invalid_argument(String::from_str("ingest would overflow the byte totals")));
                },
            };
            j = j + 1;
        }
        proof {
            assert(chunks@.take(m as int) =~= chunks@);
        }
        if self.stats.total_bytes.checked_add(n).is_none() || self.stats.stored_bytes.checked_add(n).is_none() {
            return Err(ChunkStoreError::invalid_argument(String::from_str("ingest would overflow the byte totals")));
        }
        let mut i: usize = 0;
        while i < m
            invariant
                m == chunks@.len(),
                i <= m,
                self.valid(),
                *self == *old(self),
                forall|q: int|
                    0 <= q < i ==> count_of(self.refcounts(), #[trigger] digest_of(chunk_views(chunks@)[q])) + m
                        <= u64::MAX,
            decreases m - i,
        {
            let d = digest_hex(chunks[i].as_slice());
            let c = match self.refcount.get(d.as_str()) {
                Some(c) => c,
                None => 0,
            };
            if c.checked_add(m as u64).is_none() {
                proof {
                    assert(chunk_views(chunks@)[i as int] == chunks@[i as int]@);
                }
                return Err(ChunkStoreError::invalid_argument(String::from_str("ingest would overflow a reference count")));
            }
            proof {
                assert(chunk_views(chunks@)[i as int] == chunks@[i as int]@);
            }
            i = i + 1;
        }
        proof {
            self.lemma_bounded_fits(file_id@, chunk_views(chunks@));
        }
        self.ingest_chunks(file_id, chunks)
    }

    /// Ingest `data` cut into fixed-size chunks of `chunk_size` bytes.
    pub fn ingest_fixed(&mut self, file_id: &str, data: &[u8], chunk_size: usize) -> (r: Result<
        Vec<String>,
        ChunkStoreError,
    >)
        requires
            old(self).valid(),
            chunk_size > 0,
            old(self).ingest_fits(file_id@, fixed_split(data@, chunk_size as nat)),
        ensures
            final(self).valid(),
            final(self).files().remove(file_id@) == old(self).files().remove(file_id@),
            file_id@.len() == 0 && old(self).reliable() && indexes_readable(old(self).stored()) ==> (r matches Err(
                e,
            ) && e is InvalidArgument) && manifest_keys_same(old(self).stored(), final(self).stored()),
            file_id@.len() == 0 ==> r is Err,
            final(self).reliable() == old(self).reliable(),
            old(self).ingest_succeeds(file_id@) ==> r is Ok,
            old(self).ingest_runs(file_id@) && file_id@.len() == 0 ==> (r matches Err(e) && e is InvalidArgument),
            r matches Ok(ds) ==> Self::ingest_post(
                *old(self),
                *final(self),
                file_id@,
                fixed_split(data@, chunk_size as nat),
                strings_view(ds@),
            ),
            r is Ok && old(self).wf() && no_collision(old(self).stored(), fixed_split(data@, chunk_size as nat))
                ==> final(self).content(file_id@) == data@,
    {
        proof {
            crate::chunker::fixed::lemma_fixed_split_flatten(data@, chunk_size as nat);
        }
        let chunks = fixed_chunks(data, chunk_size);
        self.ingest_chunks(file_id, chunks.as_slice())
    }

    /// Ingest `data` cut into fixed-size chunks of `chunk_size` bytes, after
    /// testing that the chunks fit the store's counters (see
    /// [`Self::try_ingest_chunks`]).
    pub fn try_ingest_fixed(&mut self, file_id: &str, data: &[u8], chunk_size: usize) -> (r: Result<
        Vec<String>,
        ChunkStoreError,
    >)
        requires
            old(self).valid(),
            chunk_size > 0,
        ensures
            final(self).valid(),
            final(self).files().remove(file_id@) == old(self).files().remove(file_id@),
            !old(self).ingest_bounded(fixed_split(data@, chunk_size as nat)) ==> (r matches Err(e)
                && e is InvalidArgument && *final(self) == *old(self)),
            old(self).ingest_bounded(fixed_split(data@, chunk_size as nat)) && old(self).ingest_succeeds(file_id@)
                ==> r is Ok,
            r matches Ok(ds) ==> Self::ingest_post(
                *old(self),
                *final(self),
                file_id@,
                fixed_split(data@, chunk_size as nat),
                strings_view(ds@),
            ),
            r is Ok && old(self).wf() && no_collision(old(self).stored(), fixed_split(data@, chunk_size as nat))
                ==> final(self).content(file_id@) == data@,
    {
        proof {
            crate::chunker::fixed::lemma_fixed_split_flatten(data@, chunk_size as nat);
        }
        let chunks = fixed_chunks(data, chunk_size);
        self.try_ingest_chunks(file_id, chunks.as_slice())
    }

    /// Ingest `data` cut by content-defined chunking with the default sizes,
    /// after testing that the chunks fit the store's counters (see
    /// [`Self::try_ingest_chunks`]).
    pub fn try_ingest_cdc(&mut self, file_id: &str, data: &[u8]) -> (r: Result<Vec<String>, ChunkStoreError>)
        requires
            old(self).valid(),
        ensures
            final(self).valid(),
            final(self).files().remove(file_id@) == old(self).files().remove(file_id@),
            !old(self).ingest_bounded(cdc_pieces(data@)) ==> (r matches Err(e) && e is InvalidArgument
                && *final(self) == *old(self)),
            old(self).ingest_bounded(cdc_pieces(data@)) && old(self).ingest_succeeds(file_id@) ==> r is Ok,
            r matches Ok(ds) ==> Self::ingest_post(
                *old(self),
                *final(self),
                file_id@,
                cdc_pieces(data@),
                strings_view(ds@),
            ),
            r is Ok && old(self).wf() && no_collision(old(self).stored(), cdc_pieces(data@))
                ==> final(self).content(file_id@) == data@,
    {
        let chunks = cdc_chunks(data);
        self.try_ingest_chunks(file_id, chunks.as_slice())
    }

    /// Ingest `data` cut into fixed-size chunks of the default size.
    pub fn ingest(&mut self, file_id: &str, data: &[u8]) -> (r: Result<Vec<String>, ChunkStoreError>)
        requires
            old(self).valid(),
            old(self).ingest_fits(file_id@, fixed_split(data@, 4194304)),
        ensures
            final(self).valid(),
            final(self).files().remove(file_id@) == old(self).files().remove(file_id@),
            file_id@.len() == 0 && old(self).reliable() && indexes_readable(old(self).stored()) ==> (r matches Err(
                e,
            ) && e is InvalidArgument) && manifest_keys_same(old(self).stored(), final(self).stored()),
            file_id@.len() == 0 ==> r is Err,
            final(self).reliable() == old(self).reliable(),
            old(self).ingest_succeeds(file_id@) ==> r is Ok,
            old(self).ingest_runs(file_id@) && file_id@.len() == 0 ==> (r matches Err(e) && e is InvalidArgument),
            r matches Ok(ds) ==> Self::ingest_post(
                *old(self),
                *final(self),
                file_id@,
                fixed_split(data@, 4194304),
                strings_view(ds@),
            ),
            r is Ok && old(self).wf() && no_collision(old(self).stored(), fixed_split(data@, 4194304))
                ==> final(self).content(file_id@) == data@,
    {
        self.ingest_fixed(file_id, data, FixedChunker::default_chunk_size())
    }

    /// Ingest `data` cut by content-defined chunking with the default sizes.
    pub fn ingest_cdc(&mut self, file_id: &str, data: &[u8]) -> (r: Result<Vec<String>, ChunkStoreError>)
        requires
            old(self).valid(),
            old(self).ingest_fits(file_id@, cdc_pieces(data@)),
        ensures
            final(self).valid(),
            final(self).files().remove(file_id@) == old(self).files().remove(file_id@),
            file_id@.len() == 0 && old(self).reliable() && indexes_readable(old(self).stored()) ==> (r matches Err(
                e,
            ) && e is InvalidArgument) && manifest_keys_same(old(self).stored(), final(self).stored()),
            file_id@.len() == 0 ==> r is Err,
            final(self).reliable() == old(self).reliable(),
            old(self).ingest_succeeds(file_id@) ==> r is Ok,
            old(self).ingest_runs(file_id@) && file_id@.len() == 0 ==> (r matches Err(e) && e is InvalidArgument),
            r matches Ok(ds) ==> Self::ingest_post(
                *old(self),
                *final(self),
                file_id@,
                cdc_pieces(data@),
                strings_view(ds@),
            ),
            r is Ok && old(self).wf() && no_collision(old(self).stored(), cdc_pieces(data@))
                ==> final(self).content(file_id@) == data@,
    {
        let chunks = cdc_chunks(data);
        self.ingest_chunks(file_id, chunks.as_slice())
    }

    fn ingest_reader_with_chunker<R: ByteSource, C: Chunker>(
        &mut self,
        file_id: &str,
        reader: &mut R,
        chunker: &mut C,
    ) -> (r: Result<Vec<String>, ChunkStoreError>)
        requires
            old(self).valid(),
            old(chunker).ready(),
            old(self).ingest_fits(file_id@, old(chunker).chunks_for(old(reader).remaining())),
        ensures
            final(self).valid(),
            final(self).files().remove(file_id@) == old(self).files().remove(file_id@),
            file_id@.len() == 0 ==> r is Err,
            final(self).reliable() == old(self).reliable(),
            old(reader).always_reads() && old(chunker).always_chunks() && old(self).ingest_succeeds(file_id@)
                ==> r is Ok,
            old(reader).always_reads() && old(chunker).always_chunks() && old(self).ingest_runs(file_id@)
                && file_id@.len() == 0 ==> (r matches Err(e) && e is InvalidArgument),
            r matches Ok(ds) ==> Self::ingest_post(
                *old(self),
                *final(self),
                file_id@,
                old(chunker).chunks_for(old(reader).remaining()),
                strings_view(ds@),
            ),
            r is Ok ==> old(chunker).chunks_for(old(reader).remaining()).flatten() == old(chunker).pending()
                + old(reader).remaining(),
            r is Ok ==> final(reader).remaining().len() == 0,
    {
        let chunks = chunk_reader(reader, chunker)?;
        self.ingest_chunks(file_id, chunks.as_slice())
    }

    /// Ingest everything `reader` yields, cut into fixed-size chunks.
    pub fn ingest_reader_fixed<R: ByteSource>(
        &mut self,
        file_id: &str,
        reader: &mut R,
        chunk_size: usize,
    ) -> (r: Result<Vec<String>, ChunkStoreError>)
        requires
            old(self).valid(),
            chunk_size > 0,
            old(self).ingest_fits(file_id@, fixed_split(old(reader).remaining(), chunk_size as nat)),
        ensures
            final(self).valid(),
            final(self).files().remove(file_id@) == old(self).files().remove(file_id@),
            file_id@.len() == 0 ==> r is Err,
            final(self).reliable() == old(self).reliable(),
            old(reader).always_reads() && old(self).ingest_succeeds(file_id@) ==> r is Ok,
            old(reader).always_reads() && old(self).ingest_runs(file_id@) && file_id@.len() == 0 ==> (r matches Err(
                e,
            ) && e is InvalidArgument),
            r matches Ok(ds) ==> Self::ingest_post(
                *old(self),
                *final(self),
                file_id@,
                fixed_split(old(reader).remaining(), chunk_size as nat),
                strings_view(ds@),
            ),
            r is Ok && old(self).wf() && no_collision(
                old(self).stored(),
                fixed_split(old(reader).remaining(), chunk_size as nat),
            ) ==> final(self).content(file_id@) == old(reader).remaining(),
            r is Ok ==> final(reader).remaining().len() == 0,
    {
        let mut chunker = FixedChunker::new(chunk_size);
        proof {
            assert(chunker.pending() + reader.remaining() =~= reader.remaining());
            crate::chunker::fixed::lemma_fixed_split_flatten(reader.remaining(), chunk_size as nat);
        }
        self.ingest_reader_with_chunker(file_id, reader, &mut chunker)
    }

    /// Ingest everything `reader` yields, cut by content-defined chunking.
    pub fn ingest_reader_cdc<R: ByteSource>(&mut self, file_id: &str, reader: &mut R) -> (r: Result<
        Vec<String>,
        ChunkStoreError,
    >)
        requires
            old(self).valid(),
            old(self).ingest_fits(file_id@, cdc_pieces(old(reader).remaining())),
        ensures
            final(self).valid(),
            final(self).files().remove(file_id@) == old(self).files().remove(file_id@),
            file_id@.len() == 0 ==> r is Err,
            final(self).reliable() == old(self).reliable(),
            old(reader).always_reads() && old(self).ingest_succeeds(file_id@) ==> r is Ok,
            old(reader).always_reads() && old(self).ingest_runs(file_id@) && file_id@.len() == 0 ==> (r matches Err(
                e,
            ) && e is InvalidArgument),
            r matches Ok(ds) ==> Self::ingest_post(
                *old(self),
                *final(self),
                file_id@,
                cdc_pieces(old(reader).remaining()),
                strings_view(ds@),
            ),
            r is Ok && old(self).wf() && no_collision(old(self).stored(), cdc_pieces(old(reader).remaining()))
                ==> final(self).content(file_id@) == old(reader).remaining(),
            r is Ok ==> final(reader).remaining().len() == 0,
    {
        let mut chunker = CdcChunker::with_defaults()?;
        proof {
            assert(chunker.pending() + reader.remaining() =~= reader.remaining());
            assert(chunker.chunks_for(reader.remaining()) == cdc_pieces(reader.remaining()));
        }
        self.ingest_reader_with_chunker(file_id, reader, &mut chunker)
    }

    fn try_ingest_reader_with_chunker<R: ByteSource, C: Chunker>(
        &mut self,
        file_id: &str,
        reader: &mut R,
        chunker: &mut C,
    ) -> (r: Result<Vec<String>, ChunkStoreError>)
        requires
            old(self).valid(),
            old(chunker).ready(),
        ensures
            final(self).valid(),
            final(self).files().remove(file_id@) == old(self).files().remove(file_id@),
            old(reader).always_reads() && old(chunker).always_chunks() && !old(self).ingest_bounded(
                old(chunker).chunks_for(old(reader).remaining()),
            ) ==> (r matches Err(e) && e is InvalidArgument && *final(self) == *old(self)),
            old(reader).always_reads() && old(chunker).always_chunks() && old(self).ingest_bounded(
                old(chunker).chunks_for(old(reader).remaining()),
            ) && old(self).ingest_succeeds(file_id@) ==> r is Ok,
            r matches Ok(ds) ==> Self::ingest_post(
                *old(self),
                *final(self),
                file_id@,
                old(chunker).chunks_for(old(reader).remaining()),
                strings_view(ds@),
            ),
            r is Ok ==> old(chunker).chunks_for(old(reader).remaining()).flatten() == old(chunker).pending()
                + old(reader).remaining(),
            r is Ok ==> final(reader).remaining().len() == 0,
    {
        let chunks = chunk_reader(reader, chunker)?;
        self.try_ingest_chunks(file_id, chunks.as_slice())
    }

    /// Ingest everything `reader` yields, cut into fixed-size chunks, after
    /// testing that the chunks fit the store's counters (see
    /// [`Self::try_ingest_chunks`]).
    pub fn try_ingest_reader_fixed<R: ByteSource>(
        &mut self,
        file_id: &str,
        reader: &mut R,
        chunk_size: usize,
    ) -> (r: Result<Vec<String>, ChunkStoreError>)
        requires
            old(self).valid(),
            chunk_size > 0,
        ensures
            final(self).valid(),
            final(self).files().remove(file_id@) == old(self).files().remove(file_id@),
            old(reader).always_reads() && !old(self).ingest_bounded(
                fixed_split(old(reader).remaining(), chunk_size as nat),
            ) ==> (r matches Err(e) && e is InvalidArgument && *final(self) == *old(self)),
            old(reader).always_reads() && old(self).ingest_bounded(
                fixed_split(old(reader).remaining(), chunk_size as nat),
            ) && old(self).ingest_succeeds(file_id@) ==> r is Ok,
            r matches Ok(ds) ==> Self::ingest_post(
                *old(self),
                *final(self),
                file_id@,
                fixed_split(old(reader).remaining(), chunk_size as nat),
                strings_view(ds@),
            ),
            r is Ok && old(self).wf() && no_collision(
                old(self).stored(),
                fixed_split(old(reader).remaining(), chunk_size as nat),
            ) ==> final(self).content(file_id@) == old(reader).remaining(),
            r is Ok ==> final(reader).remaining().len() == 0,
    {
        let mut chunker = FixedChunker::new(chunk_size);
        proof {
            assert(chunker.pending() + reader.remaining() =~= reader.remaining());
            crate::chunker::fixed::lemma_fixed_split_flatten(reader.remaining(), chunk_size as nat);
        }
        self.try_ingest_reader_with_chunker(file_id, reader, &mut chunker)
    }

    /// Ingest everything `reader` yields, cut by content-defined chunking,
    /// after testing that the chunks fit the store's counters (see
    /// [`Self::try_ingest_chunks`]).
    pub fn try_ingest_reader_cdc<R: ByteSource>(&mut self, file_id: &str, reader: &mut R) -> (r: Result<
        Vec<String>,
        ChunkStoreError,
    >)
        requires
            old(self).valid(),
        ensures
            final(self).valid(),
            final(self).files().remove(file_id@) == old(self).files().remove(file_id@),
            old(reader).always_reads() && !old(self).ingest_bounded(cdc_pieces(old(reader).remaining())) ==> (
            r matches Err(e) && e is InvalidArgument && *final(self) == *old(self)),
            old(reader).always_reads() && old(self).ingest_bounded(cdc_pieces(old(reader).remaining()))
                && old(self).ingest_succeeds(file_id@) ==> r is Ok,
            r matches Ok(ds) ==> Self::ingest_post(
                *old(self),
                *final(self),
                file_id@,
                cdc_pieces(old(reader).remaining()),
                strings_view(ds@),
            ),
            r is Ok && old(self).wf() && no_collision(old(self).stored(), cdc_pieces(old(reader).remaining()))
                ==> final(self).content(file_id@) == old(reader).remaining(),
            r is Ok ==> final(reader).remaining().len() == 0,
    {
        let mut chunker = match CdcChunker::with_defaults() {
            Ok(c) => c,
            Err(e) => {
                return Err(e);
            },
        };
        proof {
            assert(chunker.pending() + reader.remaining() =~= reader.remaining());
            assert(chunker.chunks_for(reader.remaining()) == cdc_pieces(reader.remaining()));
        }
        self.try_ingest_reader_with_chunker(file_id, reader, &mut chunker)
    }
}

/// Reopening: a store opened over the backend contents that a durable store
/// left holds the same files, file sizes and reference counts, reads every file
/// back as the same bytes, and is itself durable; it is consistent if the first
/// store was, and it has the same statistics if the first store's statistics
/// matched its counts.
pub proof fn lemma_reopen_restores<B1: ChunkBackend, B2: ChunkBackend>(a: &ChunkStore<B1>, b: &ChunkStore<B2>)
    requires
        a.durable(),
        b.loaded_from(a.stored()),
    ensures
        b.stored() == a.stored(),
        b.files() == a.files(),
        b.file_sizes() == a.file_sizes(),
        b.refcounts() == a.refcounts(),
        b.durable(),
        forall|id: Seq<char>| #[trigger] a.files().contains_key(id) ==> b.content(id) == a.content(id),
        a.wf() ==> b.wf(),
        a.stats_consistent() ==> b.stats_view() == a.stats_view() && b.stats_consistent(),
{
    let s = a.stored();
    assert(holds_manifest(s, a.manifest@));
    assert(holds_counts(s, a.refcount@));
    assert(b.manifest@ == a.manifest@);
    assert(b.refcount@ == a.refcount@);
    assert(b.files() =~= a.files());
    assert(b.file_sizes() =~= a.file_sizes());
    if a.stats_consistent() {
        b.refcount.lemma_sums_by_view(&a.refcount, s);
        assert(stats_match(b.stats, b.refcount, b.backend.stored()));
    }
    if a.wf() {
        assert forall|d: Seq<char>| #[trigger] b.manifest.refs(d) == a.manifest.refs(d) by {
            b.manifest.lemma_refs_by_view(&a.manifest, d);
        }
        assert forall|d: Seq<char>| #[trigger] b.refcount@.contains_key(d) == (b.manifest.refs(d) > 0) by {
            assert(a.refcount@.contains_key(d) == (a.manifest.refs(d) > 0));
        }
        assert forall|d: Seq<char>| #[trigger] b.refcount@.contains_key(d) implies b.refcount@[d] == b.manifest.refs(d) by {
            assert(a.refcount@[d] == a.manifest.refs(d));
        }
    }
}

/// Deleting a file undoes ingesting it: in a consistent store whose statistics
/// match its counts, ingesting a new file (without a digest collision) and then
/// deleting it leaves the files, file sizes, reference counts, statistics and
/// stored chunks as they were.
pub proof fn lemma_delete_undoes_ingest<B: ChunkBackend>(
    s0: ChunkStore<B>,
    s1: ChunkStore<B>,
    s2: ChunkStore<B>,
    file_id: Seq<char>,
    pieces: Seq<Seq<u8>>,
    ds: Seq<Seq<char>>,
)
    requires
        s0.wf(),
        s0.stats_consistent(),
        !s0.files().contains_key(file_id),
        no_collision(s0.stored(), pieces),
        ChunkStore::ingest_post(s0, s1, file_id, pieces, ds),
        ChunkStore::delete_post(s1, s2, file_id),
    ensures
        s2.files() == s0.files(),
        s2.file_sizes() == s0.file_sizes(),
        s2.refcounts() == s0.refcounts(),
        s2.stats_view() == s0.stats_view(),
        blobs_same(s0.stored(), s2.stored()),
{
    let new_ds = piece_digests(pieces);
    let st0 = s0.stored();
    let st1 = s1.stored();
    let st2 = s2.stored();
    assert(s0.digests_of(file_id) == Seq::<Seq<char>>::empty());
    assert(s2.files() =~= s0.files());
    assert(s2.file_sizes() =~= s0.file_sizes());
    assert(s1.files()[file_id] == new_ds);
    s0.refcount.lemma_counts_positive();
    s2.refcount.lemma_counts_positive();
    assert forall|d: Seq<char>| #[trigger] count_of(s2.refcount@, d) == count_of(s0.refcount@, d) by {
        assert(occurrences(Seq::<Seq<char>>::empty(), d) == 0);
        assert(count_of(s1.refcounts(), d) == count_of(s0.refcounts(), d) - occurrences(
            s0.digests_of(file_id),
            d,
        ) + occurrences(new_ds, d));
        assert(count_of(s2.refcounts(), d) == count_of(s1.refcounts(), d) - occurrences(s1.files()[file_id], d));
    }
    assert forall|d: Seq<char>| #[trigger] s2.refcount@.contains_key(d) == s0.refcount@.contains_key(d) by {
        assert(count_of(s2.refcount@, d) == count_of(s0.refcount@, d));
    }
    assert forall|d: Seq<char>| #[trigger] s2.refcount@.contains_key(d) implies s2.refcount@[d] == s0.refcount@[d] by {
        assert(count_of(s2.refcount@, d) == count_of(s0.refcount@, d));
    }
    assert(s2.refcount@ =~= s0.refcount@);
    // Counted chunks keep their bytes throughout.
    s1.refcount.lemma_counts_positive();
    assert forall|d: Seq<char>| #[trigger] s0.refcount@.contains_key(d) implies st2[d] == st0[d] && st2.contains_key(d)
        && st1.contains_key(d) by {
        assert(count_of(s1.refcount@, d) >= count_of(s0.refcount@, d)) by {
            assert(occurrences(Seq::<Seq<char>>::empty(), d) == 0);
            assert(count_of(s1.refcounts(), d) == count_of(s0.refcounts(), d) - occurrences(
                s0.digests_of(file_id),
                d,
            ) + occurrences(new_ds, d));
        }
        assert(s1.refcount@.contains_key(d));
        assert(st1.contains_key(d) && is_lower_digest(d));
        lemma_lower_digest_is_digest_text(d);
        assert(s2.refcount@.contains_key(d));
        assert(st2.contains_key(d));
    }
    // The statistics are the sums over the same counts and sizes.
    s2.refcount.lemma_sums_by_view(&s0.refcount, st2);
    s0.refcount.lemma_sums_frame(st2, st0);
    // The chunks stored are the same.
    assert forall|k: Seq<char>| !is_meta_key(k) implies (#[trigger] st0.contains_key(k) == st2.contains_key(k) && (
    st0.contains_key(k) ==> st0[k] == st2[k])) by {
        assert(occurrences(Seq::<Seq<char>>::empty(), k) == 0);
        assert(count_of(s1.refcounts(), k) == count_of(s0.refcounts(), k) - occurrences(s0.digests_of(file_id), k)
            + occurrences(new_ds, k));
        if st0.contains_key(k) && !st2.contains_key(k) {
            if st1.contains_key(k) {
                assert(s1.files()[file_id].contains(k) && !s2.refcounts().contains_key(k));
                crate::store::manifest::lemma_occurrences_contains(new_ds, k);
                assert(s1.refcount@.contains_key(k));
                assert(is_lower_digest(k));
                assert(s0.refcount@.contains_key(k));
            } else {
                assert(s0.digests_of(file_id).contains(k));
            }
        }
        if st2.contains_key(k) && !st0.contains_key(k) {
            assert(st1.contains_key(k));
            assert(st0.contains_key(k) || new_ds.contains(k));
            assert(!s0.refcount@.contains_key(k));
            assert(!s2.refcounts().contains_key(k));
            assert(s1.files()[file_id].contains(k));
            assert(!st2.contains_key(k));
        }
        if st0.contains_key(k) && st2.contains_key(k) {
            assert(st1.contains_key(k));
            assert(st1[k] == st0[k]);
            assert(st2[k] == st1[k]);
        }
    }
}

/// The count key of every listed digest follows the counts: a counted digest's
/// key holds its count in decimal, and an uncounted digest has no key.
pub open spec fn count_keys_follow(
    s: Map<Seq<char>, Seq<u8>>,
    rc: Map<Seq<char>, u64>,
    ds: Seq<Seq<char>>,
) -> bool {
    forall|d: Seq<char>| #[trigger]
        ds.contains(d) ==> if rc.contains_key(d) {
            s.contains_key(refcount_key_of(d)) && s[refcount_key_of(d)] == decimal_bytes(rc[d] as nat)
        } else {
            !s.contains_key(refcount_key_of(d))
        }
}

/// Writes for one digest leave the count key of another digest alone.
proof fn lemma_count_key_untouched(d: Seq<char>, digest: Seq<char>)
    requires
        is_digest_text(d),
        is_digest_text(digest),
        d != digest,
    ensures
        refcount_key_of(d) != refcount_index_key(),
        refcount_key_of(d) != refcount_key_of(digest),
        refcount_key_of(d) != digest,
{
    crate::store::persistence::lemma_digest_key_not_index(d);
    crate::store::persistence::lemma_prefixed_injective(crate::store::persistence::refcount_prefix(), d, digest);
    lemma_keys_are_meta(d);
    lemma_digest_not_meta(digest);
}

/// `data` cut into fixed-size chunks of `chunk_size` bytes.
fn fixed_chunks(data: &[u8], chunk_size: usize) -> (chunks: Vec<Vec<u8>>)
    requires
        chunk_size > 0,
    ensures
        chunk_views(chunks@) == fixed_split(data@, chunk_size as nat),
{
    let mut chunker = FixedChunker::new(chunk_size);
    let mut chunks = match chunker.feed(data) {
        Ok(c) => c,
        Err(_) => {
            return Vec::new();
        },
    };
    let ghost full = chunks@;
    let ghost rest = chunker.pending();
    let mut tail = match chunker.finish() {
        Ok(c) => c,
        Err(_) => {
            return Vec::new();
        },
    };
    proof {
        assert(concat_chunks(full) + rest =~= data@);
        lemma_fixed_split(chunk_views(full), rest, data@, chunk_size as nat);
        if tail@.len() == 1 {
            assert(chunk_views(tail@) =~= seq![tail@[0]@]);
            chunk_views(tail@).lemma_flatten_singleton();
            assert(concat_chunks(tail@) =~= tail@[0]@);
            assert(rest.len() > 0);
        } else {
            assert(tail@.len() == 0);
            assert(concat_chunks(tail@) =~= Seq::<u8>::empty());
        }
    }
    let ghost tail_chunks = tail@;
    chunks.append(&mut tail);
    proof {
        assert(chunk_views(chunks@) =~= chunk_views(full) + chunk_views(tail_chunks));
        if rest.len() > 0 {
            assert(chunk_views(chunks@) =~= chunk_views(full).push(rest));
        } else {
            assert(chunk_views(chunks@) =~= chunk_views(full));
        }
    }
    chunks
}

/// `data` cut by content-defined chunking with the default sizes.
fn cdc_chunks(data: &[u8]) -> (chunks: Vec<Vec<u8>>)
    ensures
        chunk_views(chunks@) == cdc_pieces(data@),
        cdc_pieces(data@).flatten() == data@,
{
    let mut chunker = match CdcChunker::with_defaults() {
        Ok(c) => c,
        Err(_) => {
            return Vec::new();
        },
    };
    let mut chunks = match chunker.feed(data) {
        Ok(c) => c,
        Err(_) => {
            return Vec::new();
        },
    };
    let mut tail = match chunker.finish() {
        Ok(c) => c,
        Err(_) => {
            return Vec::new();
        },
    };
    let ghost tail_chunks = tail@;
    proof {
        assert(chunks@.len() == 0);
    }
    chunks.append(&mut tail);
    proof {
        assert(chunks@ =~= tail_chunks);
        if data@.len() == 0 {
            assert(chunk_views(chunks@) =~= cdc_pieces(data@));
        }
        assert(cdc_pieces(data@).flatten() == data@);
    }
    chunks
}

proof fn lemma_released_le(st: Stats, s: Map<Seq<char>, Seq<u8>>, rc: Map<Seq<char>, u64>, ds: Seq<Seq<char>>)
    ensures
        released_stats(st, s, rc, ds).total_bytes <= st.total_bytes,
        released_stats(st, s, rc, ds).stored_bytes <= st.stored_bytes,
    decreases ds.len(),
{
    if ds.len() > 0 {
        lemma_released_le(st, s, rc, ds.drop_last());
    }
}

proof fn lemma_occurrences_le_len(s: Seq<Seq<char>>, d: Seq<char>)
    ensures
        occurrences(s, d) <= s.len(),
    decreases s.len(),
{
    if s.len() > 0 {
        lemma_occurrences_le_len(s.drop_last(), d);
    }
}

proof fn lemma_totals_prefix_le(es: Seq<(Seq<char>, u64)>, i: int, s: Map<Seq<char>, Seq<u8>>)
    requires
        0 <= i <= es.len(),
    ensures
        weighted_total(es.take(i), s) <= weighted_total(es, s),
        size_total(es.take(i), s) <= size_total(es, s),
    decreases es.len() - i,
{
    if i == es.len() {
        assert(es.take(i) =~= es);
    } else {
        assert(es.take(i + 1).drop_last() =~= es.take(i));
        lemma_totals_prefix_le(es, i + 1, s);
    }
}

proof fn lemma_total_len_concat(chunks: Seq<Vec<u8>>)
    ensures
        total_len(chunks) == concat_chunks(chunks).len(),
    decreases chunks.len(),
{
    if chunks.len() > 0 {
        lemma_total_len_concat(chunks.drop_last());
        crate::chunker::lemma_concat_push(chunks.drop_last(), chunks.last());
        assert(chunks.drop_last().push(chunks.last()) =~= chunks);
    }
}

proof fn lemma_total_len_take(chunks: Seq<Vec<u8>>, i: int)
    requires
        0 <= i < chunks.len(),
    ensures
        total_len(chunks.take(i + 1)) == total_len(chunks.take(i)) + chunks[i]@.len(),
{
    assert(chunks.take(i + 1).drop_last() =~= chunks.take(i));
}

proof fn lemma_total_len_prefix_le(chunks: Seq<Vec<u8>>, i: int)
    requires
        0 <= i <= chunks.len(),
    ensures
        total_len(chunks.take(i)) <= total_len(chunks),
    decreases chunks.len() - i,
{
    if i == chunks.len() {
        assert(chunks.take(i) =~= chunks);
    } else {
        lemma_total_len_take(chunks, i);
        lemma_total_len_prefix_le(chunks, i + 1);
    }
}

proof fn lemma_occurrences_prefix_le(s: Seq<Seq<char>>, i: int, d: Seq<char>)
    requires
        0 <= i <= s.len(),
    ensures
        occurrences(s.take(i), d) <= occurrences(s, d),
    decreases s.len() - i,
{
    if i == s.len() {
        assert(s.take(i) =~= s);
    } else {
        assert(s.take(i + 1) =~= s.take(i).push(s[i]));
        crate::store::manifest::lemma_occurrences_push(s.take(i), s[i], d);
        lemma_occurrences_prefix_le(s, i + 1, d);
    }
}

fn clone_strings(src: &[String]) -> (out: Vec<String>)
    ensures
        strings_view(out@) == strings_view(src@),
{
    let n = src.len();
    let mut out: Vec<String> = Vec::new();
    let mut i: usize = 0;
    while i < n
        invariant
            n == src@.len(),
            i <= n,
            strings_view(out@) == strings_view(src@.take(i as int)),
        decreases n - i,
    {
        let ghost prev = out@;
        out.push(src[i].clone());
        proof {
            assert(strings_view(out@) =~= strings_view(prev).push(src@[i as int]@));
            assert(strings_view(src@.take(i + 1)) =~= strings_view(src@.take(i as int)).push(src@[i as int]@));
        }
        i = i + 1;
    }
    proof {
        assert(src@.take(n as int) =~= src@);
    }
    out
}

} // verus!
