use vstd::prelude::*;
use vstd::string::StringExecFns;

use crate::error::ChunkStoreError;
use crate::store::assoc::{
    assoc_map, has_key, key_pos, keys_distinct, lemma_assoc_empty, lemma_assoc_index, lemma_assoc_push,
    lemma_assoc_remove, lemma_assoc_update,
};

verus! {

/// The character sequences of a list of strings.
pub open spec fn strings_view(v: Seq<String>) -> Seq<Seq<char>> {
    v.map_values(|s: String| s@)
}

/// How many times `d` occurs in `s`.
pub open spec fn occurrences(s: Seq<Seq<char>>, d: Seq<char>) -> nat
    decreases s.len(),
{
    if s.len() == 0 {
        0
    } else {
        occurrences(s.drop_last(), d) + if s.last() == d {
            1nat
        } else {
            0nat
        }
    }
}

/// A digest that occurs over the records occurs in one of them.
proof fn lemma_total_refs_witness(es: Seq<(Seq<char>, FileRecord)>, d: Seq<char>)
    requires
        total_refs(es, d) > 0,
    ensures
        exists|i: int| 0 <= i < es.len() && occurrences(es[i].1.0, d) > 0,
    decreases es.len(),
{
    if occurrences(es.last().1.0, d) > 0 {
        assert(occurrences(es[es.len() - 1].1.0, d) > 0);
    } else {
        lemma_total_refs_witness(es.drop_last(), d);
        let i = choose|i: int| 0 <= i < es.drop_last().len() && occurrences(es.drop_last()[i].1.0, d) > 0;
        assert(es.drop_last()[i] == es[i]);
    }
}

/// What the manifest records of one file: its ordered chunk digests and its size.
pub type FileRecord = (Seq<Seq<char>>, u64);

/// How many times `d` occurs over all records of an association list.
pub open spec fn total_refs(es: Seq<(Seq<char>, FileRecord)>, d: Seq<char>) -> nat
    decreases es.len(),
{
    if es.len() == 0 {
        0
    } else {
        total_refs(es.drop_last(), d) + occurrences(es.last().1.0, d)
    }
}

pub proof fn lemma_occurrences_push(s: Seq<Seq<char>>, x: Seq<char>, d: Seq<char>)
    ensures
        occurrences(s.push(x), d) == occurrences(s, d) + if x == d {
            1nat
        } else {
            0nat
        },
{
    assert(s.push(x).drop_last() =~= s);
}

pub proof fn lemma_occurrences_contains(s: Seq<Seq<char>>, d: Seq<char>)
    ensures
        occurrences(s, d) > 0 <==> s.contains(d),
    decreases s.len(),
{
    if s.len() > 0 {
        lemma_occurrences_contains(s.drop_last(), d);
        if s.drop_last().contains(d) {
            let i = choose|i: int| 0 <= i < s.drop_last().len() && s.drop_last()[i] == d;
            assert(s[i] == d);
        }
        if s.contains(d) && s.last() != d {
            let i = choose|i: int| 0 <= i < s.len() && s[i] == d;
            assert(i < s.len() - 1);
            assert(s.drop_last()[i] == d);
        }
    }
}

proof fn lemma_total_refs_update(
    es: Seq<(Seq<char>, FileRecord)>,
    i: int,
    e: (Seq<char>, FileRecord),
    d: Seq<char>,
)
    requires
        0 <= i < es.len(),
    ensures
        total_refs(es.update(i, e), d) + occurrences(es[i].1.0, d) == total_refs(es, d) + occurrences(
            e.1.0,
            d,
        ),
    decreases es.len(),
{
    if i == es.len() - 1 {
        assert(es.update(i, e).drop_last() =~= es.drop_last());
    } else {
        lemma_total_refs_update(es.drop_last(), i, e, d);
        assert(es.update(i, e).drop_last() =~= es.drop_last().update(i, e));
    }
}

proof fn lemma_total_refs_remove(es: Seq<(Seq<char>, FileRecord)>, i: int, d: Seq<char>)
    requires
        0 <= i < es.len(),
    ensures
        total_refs(es.remove(i), d) + occurrences(es[i].1.0, d) == total_refs(es, d),
    decreases es.len(),
{
    if i == es.len() - 1 {
        assert(es.remove(i) =~= es.drop_last());
    } else {
        lemma_total_refs_remove(es.drop_last(), i, d);
        assert(es.remove(i).drop_last() =~= es.drop_last().remove(i));
    }
}

proof fn lemma_total_refs_ge(es: Seq<(Seq<char>, FileRecord)>, i: int, d: Seq<char>)
    requires
        0 <= i < es.len(),
    ensures
        total_refs(es, d) >= occurrences(es[i].1.0, d),
    decreases es.len(),
{
    if i < es.len() - 1 {
        lemma_total_refs_ge(es.drop_last(), i, d);
    }
}

proof fn lemma_total_refs_ge2(es: Seq<(Seq<char>, FileRecord)>, i: int, j: int, d: Seq<char>)
    requires
        0 <= i < es.len(),
        0 <= j < es.len(),
        i != j,
    ensures
        total_refs(es, d) >= occurrences(es[i].1.0, d) + occurrences(es[j].1.0, d),
    decreases es.len(),
{
    let last = es.len() - 1;
    if i == last {
        lemma_total_refs_ge(es.drop_last(), j, d);
    } else if j == last {
        lemma_total_refs_ge(es.drop_last(), i, d);
    } else {
        lemma_total_refs_ge2(es.drop_last(), i, j, d);
    }
}

proof fn lemma_total_refs_push(es: Seq<(Seq<char>, FileRecord)>, e: (Seq<char>, FileRecord), d: Seq<char>)
    ensures
        total_refs(es.push(e), d) == total_refs(es, d) + occurrences(e.1.0, d),
{
    assert(es.push(e).drop_last() =~= es);
}

/// Reference totals depend only on the map an association list stands for,
/// not on the order of its entries.
proof fn lemma_total_refs_by_map(es1: Seq<(Seq<char>, FileRecord)>, es2: Seq<(Seq<char>, FileRecord)>, d: Seq<char>)
    requires
        keys_distinct(es1),
        keys_distinct(es2),
        assoc_map(es1) == assoc_map(es2),
    ensures
        total_refs(es1, d) == total_refs(es2, d),
    decreases es1.len(),
{
    if es1.len() == 0 {
        if es2.len() > 0 {
            lemma_assoc_index(es2, 0);
            assert(assoc_map(es1).contains_key(es2[0].0));
        }
    } else {
        let i = es1.len() - 1;
        let k = es1[i].0;
        lemma_assoc_index(es1, i);
        assert(assoc_map(es2).contains_key(k));
        let j = key_pos(es2, k);
        lemma_assoc_index(es2, j);
        lemma_assoc_remove(es1, i);
        lemma_assoc_remove(es2, j);
        assert(es1.remove(i) =~= es1.drop_last());
        lemma_total_refs_by_map(es1.drop_last(), es2.remove(j), d);
        lemma_total_refs_remove(es2, j, d);
    }
}

#[derive(Debug)]
struct ManifestEntry {
    file_id: String,
    digests: Vec<String>,
    file_bytes: u64,
}

spec fn entry_views(s: Seq<ManifestEntry>) -> Seq<(Seq<char>, FileRecord)> {
    s.map_values(|e: ManifestEntry| (e.file_id@, (strings_view(e.digests@), e.file_bytes)))
}

/// Maps file IDs to ordered chunk digests.
#[derive(Debug)]
pub struct Manifest {
    entries: Vec<ManifestEntry>,
}

impl View for Manifest {
    type V = Map<Seq<char>, FileRecord>;

    closed spec fn view(&self) -> Map<Seq<char>, FileRecord> {
        assoc_map(entry_views(self.entries@))
    }
}

impl Default for Manifest {
    fn default() -> (m: Self)
        ensures
            m.wf(),
            m@ == Map::<Seq<char>, FileRecord>::empty(),
    {
        Manifest::new()
    }
}

impl Manifest {
    /// Each file ID occurs once.
    pub closed spec fn wf(&self) -> bool {
        keys_distinct(entry_views(self.entries@))
    }

    /// How many times digest `d` occurs over the digest lists of all files.
    pub closed spec fn refs(&self, d: Seq<char>) -> nat {
        total_refs(entry_views(self.entries@), d)
    }

    /// A digest with references occurs in some file.
    pub proof fn lemma_refs_witness(&self, d: Seq<char>)
        requires
            self.wf(),
            self.refs(d) > 0,
        ensures
            exists|id: Seq<char>| #[trigger] self@.contains_key(id) && occurrences(self@[id].0, d) > 0,
    {
        let es = entry_views(self.entries@);
        lemma_total_refs_witness(es, d);
        let i = choose|i: int| 0 <= i < es.len() && occurrences(es[i].1.0, d) > 0;
        lemma_assoc_index(es, i);
        assert(self@.contains_key(es[i].0) && occurrences(self@[es[i].0].0, d) > 0);
    }

    /// A file's digests count toward the totals.
    pub proof fn lemma_refs_cover_file(&self, file_id: Seq<char>, d: Seq<char>)
        requires
            self.wf(),
            self@.contains_key(file_id),
        ensures
            self.refs(d) >= occurrences(self@[file_id].0, d),
    {
        let es = entry_views(self.entries@);
        let i = key_pos(es, file_id);
        lemma_assoc_index(es, i);
        lemma_total_refs_ge(es, i, d);
    }

    /// Two different files' digests both count toward the totals.
    pub proof fn lemma_refs_cover_two_files(&self, a: Seq<char>, b: Seq<char>, d: Seq<char>)
        requires
            self.wf(),
            self@.contains_key(a),
            self@.contains_key(b),
            a != b,
        ensures
            self.refs(d) >= occurrences(self@[a].0, d) + occurrences(self@[b].0, d),
    {
        let es = entry_views(self.entries@);
        let i = key_pos(es, a);
        let j = key_pos(es, b);
        lemma_assoc_index(es, i);
        lemma_assoc_index(es, j);
        lemma_total_refs_ge2(es, i, j, d);
    }

    /// Two manifests that record the same files reference each digest equally often.
    pub proof fn lemma_refs_by_view(&self, other: &Manifest, d: Seq<char>)
        requires
            self.wf(),
            other.wf(),
            self@ == other@,
        ensures
            self.refs(d) == other.refs(d),
    {
        lemma_total_refs_by_map(entry_views(self.entries@), entry_views(other.entries@), d);
    }

    /// With no files, no digest is referenced.
    pub proof fn lemma_refs_empty(&self, d: Seq<char>)
        requires
            self.wf(),
            self@ == Map::<Seq<char>, FileRecord>::empty(),
        ensures
            self.refs(d) == 0,
    {
        let es = entry_views(self.entries@);
        if es.len() > 0 {
            lemma_assoc_index(es, 0);
            assert(self@.contains_key(es[0].0));
        }
    }

    fn find(&self, file_id: &str) -> (r: Option<usize>)
        requires
            self.wf(),
        ensures
            match r {
                Some(i) => i < self.entries@.len() && self.entries@[i as int].file_id@ == file_id@
                    && self@.contains_key(file_id@) && self@[file_id@] == entry_views(self.entries@)[i as int].1,
                None => !self@.contains_key(file_id@),
            },
    {
        let key = String::from_str(file_id);
        let n = self.entries.len();
        let mut i: usize = 0;
        while i < n
            invariant
                n == self.entries@.len(),
                i <= n,
                key@ == file_id@,
                self.wf(),
                forall|j: int| 0 <= j < i ==> #[trigger] self.entries@[j].file_id@ != file_id@,
            decreases n - i,
        {
            if self.entries[i].file_id == key {
                proof {
                    lemma_assoc_index(entry_views(self.entries@), i as int);
                }
                return Some(i);
            }
            i = i + 1;
        }
        proof {
            let es = entry_views(self.entries@);
            if has_key(es, file_id@) {
                let j = key_pos(es, file_id@);
                assert(self.entries@[j].file_id@ == es[j].0);
            }
        }
        None
    }

    pub fn new() -> (m: Self)
        ensures
            m.wf(),
            m@ == Map::<Seq<char>, FileRecord>::empty(),
    {
        proof {
            lemma_assoc_empty::<FileRecord>();
        }
        let m = Manifest { entries: Vec::new() };
        proof {
            assert(entry_views(m.entries@) =~= Seq::<(Seq<char>, FileRecord)>::empty());
        }
        m
    }

    pub fn try_get(&self, file_id: &str) -> (r: Option<&[String]>)
        requires
            self.wf(),
        ensures
            match r {
                Some(ds) => self@.contains_key(file_id@) && strings_view(ds@) == self@[file_id@].0,
                None => !self@.contains_key(file_id@),
            },
    {
        match self.find(file_id) {
            Some(i) => Some(self.entries[i].digests.as_slice()),
            None => None,
        }
    }

    pub fn insert(&mut self, file_id: &str, digests: Vec<String>, file_bytes: u64) -> (r: Result<
        (),
        ChunkStoreError,
    >)
        requires
            old(self).wf(),
        ensures
            final(self).wf(),
            r is Err <==> file_id@.len() == 0,
            r matches Err(e) ==> e is InvalidArgument && final(self)@ == old(self)@ && forall|
                d: Seq<char>,
            | #[trigger] final(self).refs(d) == old(self).refs(d),
            r is Ok ==> final(self)@ == old(self)@.insert(file_id@, (strings_view(digests@), file_bytes)),
            r is Ok ==> forall|d: Seq<char>|
                #[trigger] final(self).refs(d) + (if old(self)@.contains_key(file_id@) {
                    occurrences(old(self)@[file_id@].0, d)
                } else {
                    0
                }) == old(self).refs(d) + occurrences(strings_view(digests@), d),
    {
        if file_id.is_empty() {
            return Err(ChunkStoreError::invalid_argument(String::from_str("file_id cannot be empty")));
        }
        let ghost es = entry_views(self.entries@);
        let ghost rec: FileRecord = (strings_view(digests@), file_bytes);
        match self.find(file_id) {
            Some(i) => {
                let k = self.entries[i].file_id.clone();
                proof {
                    lemma_assoc_index(es, i as int);
                    lemma_assoc_update(es, i as int, rec);
                    assert forall|d: Seq<char>| true implies #[trigger] total_refs(es.update(i as int, (es[i as int].0, rec)), d)
                        + occurrences(es[i as int].1.0, d) == total_refs(es, d) + occurrences(rec.0, d) by {
                        lemma_total_refs_update(es, i as int, (es[i as int].0, rec), d);
                    }
                }
                self.entries.set(i, ManifestEntry { file_id: k, digests, file_bytes });
                proof {
                    assert(entry_views(self.entries@) =~= es.update(i as int, (es[i as int].0, rec)));
                }
            },
            None => {
                let k = String::from_str(file_id);
                proof {
                    lemma_assoc_push(es, file_id@, rec);
                    assert forall|d: Seq<char>| true implies #[trigger] total_refs(es.push((file_id@, rec)), d)
                        == total_refs(es, d) + occurrences(rec.0, d) by {
                        lemma_total_refs_push(es, (file_id@, rec), d);
                    }
                }
                self.entries.push(ManifestEntry { file_id: k, digests, file_bytes });
                proof {
                    assert(entry_views(self.entries@) =~= es.push((file_id@, rec)));
                }
            },
        }
        Ok(())
    }

    pub fn get(&self, file_id: &str) -> (r: Result<&[String], ChunkStoreError>)
        requires
            self.wf(),
        ensures
            r is Err <==> !self@.contains_key(file_id@),
            r matches Err(e) ==> e is NotFound,
            r matches Ok(ds) ==> strings_view(ds@) == self@[file_id@].0,
    {
        match self.find(file_id) {
            Some(i) => Ok(self.entries[i].digests.as_slice()),
            None => {
                let mut msg = String::from_str("file ");
                msg.append(file_id);
                Err(ChunkStoreError::not_found(msg))
            },
        }
    }

    pub fn remove(&mut self, file_id: &str) -> (r: Result<Vec<String>, ChunkStoreError>)
        requires
            old(self).wf(),
        ensures
            final(self).wf(),
            r is Err <==> !old(self)@.contains_key(file_id@),
            r matches Err(e) ==> e is NotFound && final(self)@ == old(self)@ && forall|d: Seq<char>|
                #[trigger] final(self).refs(d) == old(self).refs(d),
            r matches Ok(ds) ==> {
                &&& strings_view(ds@) == old(self)@[file_id@].0
                &&& final(self)@ == old(self)@.remove(file_id@)
                &&& forall|d: Seq<char>|
                    #[trigger] final(self).refs(d) + occurrences(strings_view(ds@), d) == old(self).refs(d)
            },
    {
        let ghost es = entry_views(self.entries@);
        match self.find(file_id) {
            Some(i) => {
                proof {
                    lemma_assoc_index(es, i as int);
                    lemma_assoc_remove(es, i as int);
                    assert forall|d: Seq<char>| true implies #[trigger] total_refs(es.remove(i as int), d)
                        + occurrences(es[i as int].1.0, d) == total_refs(es, d) by {
                        lemma_total_refs_remove(es, i as int, d);
                    }
                }
                let entry = self.entries.remove(i);
                proof {
                    assert(entry_views(self.entries@) =~= es.remove(i as int));
                }
                Ok(entry.digests)
            },
            None => {
                let mut msg = String::from_str("file ");
                msg.append(file_id);
                Err(ChunkStoreError::not_found(msg))
            },
        }
    }
}

} // verus!
