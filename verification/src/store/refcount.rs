use vstd::prelude::*;
use vstd::string::StringExecFns;

use crate::error::ChunkStoreError;
use crate::store::assoc::{
    assoc_map, has_key, key_pos, keys_distinct, lemma_assoc_empty, lemma_assoc_index, lemma_assoc_push,
    lemma_assoc_remove, lemma_assoc_update,
};

verus! {

/// The key/value view of a list of (digest, count) pairs.
pub open spec fn count_entries(s: Seq<(String, u64)>) -> Seq<(Seq<char>, u64)> {
    s.map_values(|e: (String, u64)| (e.0@, e.1))
}

/// The counts after one more reference to `d`.
pub open spec fn incremented(m: Map<Seq<char>, u64>, d: Seq<char>) -> Map<Seq<char>, u64> {
    m.insert(d, if m.contains_key(d) { (m[d] + 1) as u64 } else { 1 })
}

/// The counts after one reference to `d` is dropped; a count that reaches zero
/// leaves the map.
pub open spec fn decremented(m: Map<Seq<char>, u64>, d: Seq<char>) -> Map<Seq<char>, u64> {
    if m[d] == 1 {
        m.remove(d)
    } else {
        m.insert(d, (m[d] - 1) as u64)
    }
}

/// Dropping a reference undoes adding one, and adding one back undoes dropping
/// one, for counts that are all positive.
pub proof fn lemma_increment_round_trip(m: Map<Seq<char>, u64>, d: Seq<char>)
    requires
        forall|k: Seq<char>| #[trigger] m.contains_key(k) ==> m[k] > 0,
    ensures
        !(m.contains_key(d) && m[d] == u64::MAX) ==> decremented(incremented(m, d), d) == m,
        m.contains_key(d) ==> incremented(decremented(m, d), d) == m,
{
    if !(m.contains_key(d) && m[d] == u64::MAX) {
        if m.contains_key(d) {
            assert(decremented(incremented(m, d), d) =~= m);
        } else {
            assert(decremented(incremented(m, d), d) =~= m);
        }
    }
    if m.contains_key(d) {
        assert(incremented(decremented(m, d), d) =~= m);
    }
}

/// The total size of the blobs (in `s`) of the listed digests.
pub open spec fn size_total(es: Seq<(Seq<char>, u64)>, s: Map<Seq<char>, Seq<u8>>) -> nat
    decreases es.len(),
{
    if es.len() == 0 {
        0
    } else {
        size_total(es.drop_last(), s) + s[es.last().0].len()
    }
}

/// The total size of the listed digests' blobs, each counted as often as referenced.
pub open spec fn weighted_total(es: Seq<(Seq<char>, u64)>, s: Map<Seq<char>, Seq<u8>>) -> nat
    decreases es.len(),
{
    if es.len() == 0 {
        0
    } else {
        weighted_total(es.drop_last(), s) + s[es.last().0].len() * (es.last().1 as nat)
    }
}

proof fn lemma_totals_push(es: Seq<(Seq<char>, u64)>, e: (Seq<char>, u64), s: Map<Seq<char>, Seq<u8>>)
    ensures
        weighted_total(es.push(e), s) == weighted_total(es, s) + s[e.0].len() * (e.1 as nat),
        size_total(es.push(e), s) == size_total(es, s) + s[e.0].len(),
{
    assert(es.push(e).drop_last() =~= es);
}

proof fn lemma_totals_update(es: Seq<(Seq<char>, u64)>, i: int, c: u64, s: Map<Seq<char>, Seq<u8>>)
    requires
        0 <= i < es.len(),
    ensures
        weighted_total(es.update(i, (es[i].0, c)), s) + s[es[i].0].len() * (es[i].1 as nat) == weighted_total(
            es,
            s,
        ) + s[es[i].0].len() * (c as nat),
        size_total(es.update(i, (es[i].0, c)), s) == size_total(es, s),
    decreases es.len(),
{
    if i == es.len() - 1 {
        assert(es.update(i, (es[i].0, c)).drop_last() =~= es.drop_last());
    } else {
        lemma_totals_update(es.drop_last(), i, c, s);
        assert(es.update(i, (es[i].0, c)).drop_last() =~= es.drop_last().update(i, (es[i].0, c)));
    }
}

proof fn lemma_totals_remove(es: Seq<(Seq<char>, u64)>, i: int, s: Map<Seq<char>, Seq<u8>>)
    requires
        0 <= i < es.len(),
    ensures
        weighted_total(es.remove(i), s) + s[es[i].0].len() * (es[i].1 as nat) == weighted_total(es, s),
        size_total(es.remove(i), s) + s[es[i].0].len() == size_total(es, s),
    decreases es.len(),
{
    if i == es.len() - 1 {
        assert(es.remove(i) =~= es.drop_last());
    } else {
        lemma_totals_remove(es.drop_last(), i, s);
        assert(es.remove(i).drop_last() =~= es.drop_last().remove(i));
    }
}

proof fn lemma_totals_frame(es: Seq<(Seq<char>, u64)>, s1: Map<Seq<char>, Seq<u8>>, s2: Map<Seq<char>, Seq<u8>>)
    requires
        forall|j: int| 0 <= j < es.len() ==> #[trigger] s1[es[j].0] == s2[es[j].0],
    ensures
        weighted_total(es, s1) == weighted_total(es, s2),
        size_total(es, s1) == size_total(es, s2),
    decreases es.len(),
{
    if es.len() > 0 {
        assert forall|j: int| 0 <= j < es.drop_last().len() implies #[trigger] s1[es.drop_last()[j].0]
            == s2[es.drop_last()[j].0] by {
            assert(es.drop_last()[j] == es[j]);
        }
        lemma_totals_frame(es.drop_last(), s1, s2);
        assert(s1[es[es.len() - 1].0] == s2[es[es.len() - 1].0]);
    }
}

proof fn lemma_totals_ge(es: Seq<(Seq<char>, u64)>, i: int, s: Map<Seq<char>, Seq<u8>>)
    requires
        0 <= i < es.len(),
    ensures
        weighted_total(es, s) >= s[es[i].0].len() * (es[i].1 as nat),
        size_total(es, s) >= s[es[i].0].len(),
{
    lemma_totals_remove(es, i, s);
}

proof fn lemma_size_le_weighted(es: Seq<(Seq<char>, u64)>, s: Map<Seq<char>, Seq<u8>>)
    requires
        forall|i: int| 0 <= i < es.len() ==> #[trigger] es[i].1 > 0,
    ensures
        size_total(es, s) <= weighted_total(es, s),
    decreases es.len(),
{
    if es.len() > 0 {
        let last = es.last();
        assert forall|i: int| 0 <= i < es.drop_last().len() implies #[trigger] es.drop_last()[i].1 > 0 by {
            assert(es.drop_last()[i] == es[i]);
        }
        lemma_size_le_weighted(es.drop_last(), s);
        assert(es[es.len() - 1].1 > 0);
        assert(s[last.0].len() <= s[last.0].len() * (last.1 as nat)) by (nonlinear_arith)
            requires
                last.1 >= 1,
        ;
    }
}

/// The totals depend only on the map an association list stands for.
proof fn lemma_totals_by_map(es1: Seq<(Seq<char>, u64)>, es2: Seq<(Seq<char>, u64)>, s: Map<Seq<char>, Seq<u8>>)
    requires
        keys_distinct(es1),
        keys_distinct(es2),
        assoc_map(es1) == assoc_map(es2),
    ensures
        weighted_total(es1, s) == weighted_total(es2, s),
        size_total(es1, s) == size_total(es2, s),
    decreases es1.len(),
{
    if es1.len() == 0 {
        if es2.len() > 0 {
            lemma_assoc_index(es2, 0);
            assert(assoc_map(es1).contains_key(es2[0].0));
        }
    } else {
        let i = es1.len() - 1;
        let k = es1[i].0;
        lemma_assoc_index(es1, i);
        assert(assoc_map(es2).contains_key(k));
        let j = key_pos(es2, k);
        lemma_assoc_index(es2, j);
        lemma_assoc_remove(es1, i);
        lemma_assoc_remove(es2, j);
        assert(es1.remove(i) =~= es1.drop_last());
        lemma_totals_by_map(es1.drop_last(), es2.remove(j), s);
        lemma_totals_remove(es2, j, s);
    }
}

/// Reference counts per chunk digest.
#[derive(Debug)]
pub struct RefCount {
    counts: Vec<(String, u64)>,
}

impl View for RefCount {
    type V = Map<Seq<char>, u64>;

    closed spec fn view(&self) -> Map<Seq<char>, u64> {
        assoc_map(count_entries(self.counts@))
    }
}

impl Default for RefCount {
    fn default() -> (r: Self)
        ensures
            r@ == Map::<Seq<char>, u64>::empty(),
            r.wf(),
    {
        RefCount::new()
    }
}

impl RefCount {
    /// The pairs hold each digest once, with a positive count.
    pub closed spec fn wf(&self) -> bool {
        &&& keys_distinct(count_entries(self.counts@))
        &&& forall|i: int| 0 <= i < self.counts@.len() ==> #[trigger] self.counts@[i].1 > 0
    }

    /// The size (in `s`) of every counted chunk times its count, summed.
    pub closed spec fn weighted(&self, s: Map<Seq<char>, Seq<u8>>) -> nat {
        weighted_total(count_entries(self.counts@), s)
    }

    /// The sizes (in `s`) of the counted chunks, summed.
    pub closed spec fn sized(&self, s: Map<Seq<char>, Seq<u8>>) -> nat {
        size_total(count_entries(self.counts@), s)
    }

    /// The sums read the sizes of the counted chunks only.
    pub proof fn lemma_sums_frame(&self, s1: Map<Seq<char>, Seq<u8>>, s2: Map<Seq<char>, Seq<u8>>)
        requires
            self.wf(),
            forall|d: Seq<char>| #[trigger] self@.contains_key(d) ==> s1[d] == s2[d],
        ensures
            self.weighted(s1) == self.weighted(s2),
            self.sized(s1) == self.sized(s2),
    {
        let es = count_entries(self.counts@);
        assert forall|j: int| 0 <= j < es.len() implies #[trigger] s1[es[j].0] == s2[es[j].0] by {
            lemma_assoc_index(es, j);
            assert(self@.contains_key(es[j].0));
        }
        lemma_totals_frame(es, s1, s2);
    }

    /// Counts with the same view have the same sums.
    pub proof fn lemma_sums_by_view(&self, other: &RefCount, s: Map<Seq<char>, Seq<u8>>)
        requires
            self.wf(),
            other.wf(),
            self@ == other@,
        ensures
            self.weighted(s) == other.weighted(s),
            self.sized(s) == other.sized(s),
    {
        lemma_totals_by_map(count_entries(self.counts@), count_entries(other.counts@), s);
    }

    /// The sums, written over any list of the counts (each digest once).
    pub proof fn lemma_sums_by_list(&self, es: Seq<(Seq<char>, u64)>, s: Map<Seq<char>, Seq<u8>>)
        requires
            self.wf(),
            keys_distinct(es),
            assoc_map(es) == self@,
        ensures
            self.weighted(s) == weighted_total(es, s),
            self.sized(s) == size_total(es, s),
    {
        lemma_totals_by_map(count_entries(self.counts@), es, s);
    }

    /// Each chunk is counted at least once, so its size weighs at least once.
    pub proof fn lemma_sized_le_weighted(&self, s: Map<Seq<char>, Seq<u8>>)
        requires
            self.wf(),
        ensures
            self.sized(s) <= self.weighted(s),
    {
        let es = count_entries(self.counts@);
        assert forall|i: int| 0 <= i < es.len() implies #[trigger] es[i].1 > 0 by {
            assert(es[i].1 == self.counts@[i].1);
        }
        lemma_size_le_weighted(es, s);
    }

    /// With no counts the sums are zero.
    pub proof fn lemma_sums_empty(&self, s: Map<Seq<char>, Seq<u8>>)
        requires
            self.wf(),
            self@ == Map::<Seq<char>, u64>::empty(),
        ensures
            self.weighted(s) == 0,
            self.sized(s) == 0,
    {
        let es = count_entries(self.counts@);
        if es.len() > 0 {
            lemma_assoc_index(es, 0);
            assert(self@.contains_key(es[0].0));
        }
    }

    /// Each counted chunk's share is part of the sums.
    pub proof fn lemma_sums_cover(&self, s: Map<Seq<char>, Seq<u8>>, d: Seq<char>)
        requires
            self.wf(),
            self@.contains_key(d),
        ensures
            self.weighted(s) >= s[d].len() * (self@[d] as nat),
            self.weighted(s) >= s[d].len(),
            self.sized(s) >= s[d].len(),
    {
        let es = count_entries(self.counts@);
        let i = key_pos(es, d);
        lemma_assoc_index(es, i);
        lemma_totals_ge(es, i, s);
        assert(self.counts@[i].1 > 0);
        assert(s[d].len() * (self@[d] as nat) >= s[d].len()) by (nonlinear_arith)
            requires
                self@[d] >= 1,
        ;
    }

    /// Every stored count is positive.
    pub proof fn lemma_counts_positive(&self)
        requires
            self.wf(),
        ensures
            forall|d: Seq<char>| #[trigger] self@.contains_key(d) ==> self@[d] > 0,
    {
        let es = count_entries(self.counts@);
        assert forall|d: Seq<char>| #[trigger] self@.contains_key(d) implies self@[d] > 0 by {
            let i = key_pos(es, d);
            lemma_assoc_index(es, i);
        }
    }

    fn find(&self, digest: &str) -> (r: Option<usize>)
        requires
            self.wf(),
        ensures
            match r {
                Some(i) => i < self.counts@.len() && self.counts@[i as int].0@ == digest@,
                None => !self@.contains_key(digest@),
            },
    {
        let key = String::from_str(digest);
        let n = self.counts.len();
        let mut i: usize = 0;
        while i < n
            invariant
                n == self.counts@.len(),
                i <= n,
                key@ == digest@,
                forall|j: int| 0 <= j < i ==> #[trigger] self.counts@[j].0@ != digest@,
            decreases n - i,
        {
            if self.counts[i].0 == key {
                return Some(i);
            }
            i = i + 1;
        }
        proof {
            let es = count_entries(self.counts@);
            if has_key(es, digest@) {
                let j = key_pos(es, digest@);
                assert(self.counts@[j].0@ == es[j].0);
            }
        }
        None
    }

    pub fn new() -> (r: Self)
        ensures
            r@ == Map::<Seq<char>, u64>::empty(),
            r.wf(),
            forall|s: Map<Seq<char>, Seq<u8>>| #[trigger] r.weighted(s) == 0 && r.sized(s) == 0,
    {
        proof {
            lemma_assoc_empty::<u64>();
        }
        let r = RefCount { counts: Vec::new() };
        proof {
            assert(count_entries(r.counts@) =~= Seq::<(Seq<char>, u64)>::empty());
        }
        r
    }

    pub fn set(&mut self, digest: &str, count: u64)
        requires
            old(self).wf(),
        ensures
            final(self).wf(),
            final(self)@ == if count == 0 {
                old(self)@.remove(digest@)
            } else {
                old(self)@.insert(digest@, count)
            },
            forall|s: Map<Seq<char>, Seq<u8>>| #[trigger]
                final(self).weighted(s) + (if old(self)@.contains_key(digest@) {
                    s[digest@].len() * (old(self)@[digest@] as nat)
                } else {
                    0
                }) == old(self).weighted(s) + (if count > 0 {
                    s[digest@].len() * (count as nat)
                } else {
                    0
                }),
            forall|s: Map<Seq<char>, Seq<u8>>| #[trigger]
                final(self).sized(s) + (if old(self)@.contains_key(digest@) {
                    s[digest@].len()
                } else {
                    0
                }) == old(self).sized(s) + (if count > 0 {
                    s[digest@].len()
                } else {
                    0
                }),
    {
        let ghost es = count_entries(self.counts@);
        match self.find(digest) {
            Some(i) => {
                proof {
                    lemma_assoc_index(es, i as int);
                }
                if count == 0 {
                    proof {
                        lemma_assoc_remove(es, i as int);
                        assert(count_entries(self.counts@.remove(i as int)) =~= es.remove(i as int));
                        assert forall|j: int| 0 <= j < self.counts@.remove(i as int).len() implies #[trigger] self.counts@.remove(i as int)[j].1 > 0 by {
                            assert(self.counts@.remove(i as int)[j] == self.counts@[if j < i { j } else { j + 1 }]);
                        }
                    }
                    self.counts.remove(i);
                    proof {
                        assert forall|s: Map<Seq<char>, Seq<u8>>| #![trigger self.weighted(s)] #![trigger self.sized(s)] self.weighted(s) + s[digest@].len() * (old(self)@[digest@] as nat) == old(self).weighted(s) && self.sized(s) + s[digest@].len() == old(self).sized(s) by {
                            lemma_totals_remove(es, i as int, s);
                        }
                    }
                } else {
                    proof {
                        lemma_assoc_update(es, i as int, count);
                        assert(count_entries(self.counts@.update(i as int, (self.counts@[i as int].0, count))) =~= es.update(i as int, (es[i as int].0, count)));
                    }
                    let k = self.counts[i].0.clone();
                    self.counts.set(i, (k, count));
                    proof {
                        assert(count_entries(self.counts@) =~= es.update(i as int, (es[i as int].0, count)));
                        assert forall|s: Map<Seq<char>, Seq<u8>>| #![trigger self.weighted(s)] #![trigger self.sized(s)] self.weighted(s) + s[digest@].len() * (old(self)@[digest@] as nat) == old(self).weighted(s) + s[digest@].len() * (count as nat) && self.sized(s) == old(self).sized(s) by {
                            lemma_totals_update(es, i as int, count, s);
                        }
                    }
                }
            },
            None => {
                if count == 0 {
                    proof {
                        assert(old(self)@.remove(digest@) =~= old(self)@);
                    }
                } else {
                    proof {
                        lemma_assoc_push(es, digest@, count);
                        assert(!has_key(es, digest@));
                    }
                    let k = String::from_str(digest);
                    proof {
                        assert(count_entries(self.counts@.push((k, count))) =~= es.push((digest@, count)));
                    }
                    self.counts.push((k, count));
                    proof {
                        assert forall|s: Map<Seq<char>, Seq<u8>>| #![trigger self.weighted(s)] #![trigger self.sized(s)] self.weighted(s) == old(self).weighted(s) + s[digest@].len() * (count as nat) && self.sized(s) == old(self).sized(s) + s[digest@].len() by {
                            lemma_totals_push(es, (digest@, count), s);
                        }
                    }
                }
            },
        }
    }

    pub fn increment(&mut self, digest: &str) -> (r: Result<u64, ChunkStoreError>)
        requires
            old(self).wf(),
            old(self)@.contains_key(digest@) ==> old(self)@[digest@] < u64::MAX,
        ensures
            final(self).wf(),
            r matches Ok(n) && {
                &&& n == (if old(self)@.contains_key(digest@) { old(self)@[digest@] + 1 } else { 1 })
                &&& final(self)@ == old(self)@.insert(digest@, n)
                &&& final(self)@ == incremented(old(self)@, digest@)
            },
            forall|s: Map<Seq<char>, Seq<u8>>| #[trigger]
                final(self).weighted(s) == old(self).weighted(s) + s[digest@].len(),
            forall|s: Map<Seq<char>, Seq<u8>>| #[trigger]
                final(self).sized(s) == old(self).sized(s) + if old(self)@.contains_key(digest@) {
                    0
                } else {
                    s[digest@].len()
                },
    {
        let ghost es = count_entries(self.counts@);
        let n = match self.find(digest) {
            Some(i) => {
                proof {
                    lemma_assoc_index(es, i as int);
                }
                self.counts[i].1 + 1
            },
            None => 1,
        };
        self.set(digest, n);
        proof {
            assert forall|s: Map<Seq<char>, Seq<u8>>| #[trigger]
                self.weighted(s) == old(self).weighted(s) + s[digest@].len() by {
                let z = s[digest@].len();
                assert(self.weighted(s) + (if old(self)@.contains_key(digest@) { z * (old(self)@[digest@] as nat) } else { 0 }) == old(self).weighted(s) + z * (n as nat));
                if old(self)@.contains_key(digest@) {
                    let c = old(self)@[digest@] as nat;
                    assert(z * (n as nat) == z * c + z) by (nonlinear_arith)
                        requires
                            n == c + 1,
                    ;
                } else {
                    assert(z * (n as nat) == z) by (nonlinear_arith)
                        requires
                            n == 1,
                    ;
                }
            }
        }
        Ok(n)
    }

    pub fn decrement(&mut self, digest: &str) -> (r: Result<u64, ChunkStoreError>)
        requires
            old(self).wf(),
        ensures
            final(self).wf(),
            r is Err <==> !old(self)@.contains_key(digest@),
            r matches Err(e) ==> e is NotFound && final(self)@ == old(self)@,
            r matches Ok(n) ==> {
                &&& n == old(self)@[digest@] - 1
                &&& final(self)@ == if n == 0 {
                    old(self)@.remove(digest@)
                } else {
                    old(self)@.insert(digest@, n)
                }
                &&& final(self)@ == decremented(old(self)@, digest@)
                &&& forall|s: Map<Seq<char>, Seq<u8>>| #[trigger]
                    final(self).weighted(s) + s[digest@].len() == old(self).weighted(s)
                &&& forall|s: Map<Seq<char>, Seq<u8>>| #[trigger]
                    final(self).sized(s) + (if n == 0 { s[digest@].len() } else { 0 }) == old(self).sized(s)
            },
    {
        let ghost es = count_entries(self.counts@);
        match self.find(digest) {
            Some(i) => {
                proof {
                    lemma_assoc_index(es, i as int);
                }
                let remaining = self.counts[i].1 - 1;
                self.set(digest, remaining);
                proof {
                    assert forall|s: Map<Seq<char>, Seq<u8>>| #[trigger]
                        self.weighted(s) + s[digest@].len() == old(self).weighted(s) by {
                        let z = s[digest@].len();
                        let c = old(self)@[digest@] as nat;
                        assert(self.weighted(s) + z * c == old(self).weighted(s) + (if remaining > 0 { z * (remaining as nat) } else { 0 }));
                        assert(z * c == z * (remaining as nat) + z) by (nonlinear_arith)
                            requires
                                c == remaining + 1,
                        ;
                    }
                }
                Ok(remaining)
            },
            None => {
                let mut msg = String::from_str("refcount ");
                msg.append(digest);
                Err(ChunkStoreError::not_found(msg))
            },
        }
    }

    pub fn get(&self, digest: &str) -> (r: Option<u64>)
        requires
            self.wf(),
        ensures
            r == self@.get(digest@),
    {
        let ghost es = count_entries(self.counts@);
        match self.find(digest) {
            Some(i) => {
                proof {
                    lemma_assoc_index(es, i as int);
                }
                Some(self.counts[i].1)
            },
            None => None,
        }
    }

    /// All (digest, count) pairs, each digest once.
    pub fn iter(&self) -> (r: Vec<(String, u64)>)
        requires
            self.wf(),
        ensures
            keys_distinct(count_entries(r@)),
            assoc_map(count_entries(r@)) == self@,
            forall|i: int| 0 <= i < r@.len() ==> #[trigger] r@[i].1 > 0,
            forall|s: Map<Seq<char>, Seq<u8>>| #[trigger] weighted_total(count_entries(r@), s) == self.weighted(s),
            forall|s: Map<Seq<char>, Seq<u8>>| #[trigger] size_total(count_entries(r@), s) == self.sized(s),
    {
        let n = self.counts.len();
        let mut out: Vec<(String, u64)> = Vec::new();
        let mut i: usize = 0;
        while i < n
            invariant
                n == self.counts@.len(),
                i <= n,
                count_entries(out@) == count_entries(self.counts@.take(i as int)),
                forall|j: int| 0 <= j < out@.len() ==> #[trigger] out@[j].1 > 0,
                forall|j: int| 0 <= j < self.counts@.len() ==> #[trigger] self.counts@[j].1 > 0,
            decreases n - i,
        {
            let k = self.counts[i].0.clone();
            let c = self.counts[i].1;
            let ghost prev = out@;
            out.push((k, c));
            proof {
                assert(count_entries(out@) =~= count_entries(prev).push((k@, c)));
                assert(count_entries(self.counts@.take(i + 1)) =~= count_entries(self.counts@.take(i as int)).push((self.counts@[i as int].0@, self.counts@[i as int].1)));
                assert(count_entries(out@) =~= count_entries(self.counts@.take(i + 1)));
            }
            i = i + 1;
        }
        proof {
            assert(self.counts@.take(n as int) =~= self.counts@);
        }
        out
    }
}

} // verus!
