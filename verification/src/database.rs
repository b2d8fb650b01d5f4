//! The persistent key-value capability the value-record table writes
//! through, and a verified in-memory implementation of it.

use crate::codec::Entry;
use crate::codec::Record;
use crate::codec::RecordV;
use vstd::prelude::*;

verus! {

/// A failure of the backing store itself.
#[derive(Clone, Copy, Debug, PartialEq, Eq)]
pub struct BackendError;

/// A persistent store of records by key. The surrounding system may back
/// this with an embedded database; every implementation must honour these
/// contracts.
pub trait Database: Sized {
    /// The stored mapping from key bytes to persisted records.
    spec fn db(&self) -> Map<Seq<u8>, RecordV>;

    /// Looks up the record stored under `key`; absence is not an error.
    fn get(&self, key: &Vec<u8>) -> (r: Result<Option<Record>, BackendError>)
        ensures
            r matches Ok(Some(rec)) ==> self.db().contains_key(key@) && rec@ == self.db()[key@],
            r matches Ok(None) ==> !self.db().contains_key(key@),
    ;

    /// Stores `rec` under `key`, replacing any prior record.
    fn put(&mut self, key: &Vec<u8>, rec: Record) -> (r: Result<(), BackendError>)
        ensures
            r is Ok ==> final (self).db() == old(self).db().insert(key@, rec@),
            r is Err ==> final (self).db() == old(self).db(),
    ;

    /// Deletes whatever is stored under `key`.
    fn delete(&mut self, key: &Vec<u8>) -> (r: Result<(), BackendError>)
        ensures
            r is Ok ==> final (self).db() == old(self).db().remove(key@),
            r is Err ==> final (self).db() == old(self).db(),
    ;

    /// Every stored entry, each key exactly once, in unspecified order.
    fn entries(&self) -> (r: Vec<Entry>)
        ensures
            forall|i: int|
                0 <= i < r@.len() ==> self.db().contains_key(#[trigger] r@[i].0@) && r@[i].1@
                    == self.db()[r@[i].0@],
            forall|i: int, j: int| 0 <= i < j < r@.len() ==> r@[i].0@ != r@[j].0@,
            forall|k: Seq<u8>|
                self.db().contains_key(k) ==> exists|i: int|
                    0 <= i < r@.len() && #[trigger] r@[i].0@ == k,
    ;
}

/// Whether the sequence holds an entry under `k`.
pub open spec fn has_entry(s: Seq<Entry>, k: Seq<u8>) -> bool {
    exists|i: int| 0 <= i < s.len() && s[i].0@ == k
}

/// An index of the entry stored under `k`, when there is one.
pub open spec fn entry_index(s: Seq<Entry>, k: Seq<u8>) -> int {
    choose|i: int| 0 <= i < s.len() && s[i].0@ == k
}

/// Pairwise-distinct keys.
pub open spec fn distinct_keys(s: Seq<Entry>) -> bool {
    forall|i: int, j: int| 0 <= i < j < s.len() ==> s[i].0@ != s[j].0@
}

/// The mapping an entry sequence with distinct keys represents.
pub open spec fn entries_map(s: Seq<Entry>) -> Map<Seq<u8>, RecordV> {
    Map::new(|k: Seq<u8>| has_entry(s, k), |k: Seq<u8>| s[entry_index(s, k)].1@)
}

/// A byte vector's deep view is its view.
pub broadcast proof fn lemma_bytes_deep_view(v: Vec<u8>)
    ensures
        #[trigger] v.deep_view() == v@,
{
    assert(v.deep_view() =~= v@);
}

/// Copies a byte vector.
pub(crate) fn clone_bytes(v: &Vec<u8>) -> (r: Vec<u8>)
    ensures
        r@ == v@,
{
    let r = v.clone();
    proof {
        assert(r@ =~= v@);
    }
    r
}

/// Copies a persisted record.
fn clone_record(r: &Record) -> (c: Record)
    ensures
        c@ == r@,
{
    Record { value: clone_bytes(&r.value), publisher: clone_bytes(&r.publisher), ttl: r.ttl }
}

/// Whether two byte vectors hold the same bytes.
pub(crate) fn bytes_eq(a: &Vec<u8>, b: &Vec<u8>) -> (r: bool)
    ensures
        r == (a@ == b@),
{
    let r = a == b;
    proof {
        if r {
            assert(a@ =~= b@);
        } else {
            if a@ == b@ {
                assert(a.len() == b.len());
                assert(forall|i: int| 0 <= i < a@.len() ==> a@[i] == b@[i]);
                assert(false);
            }
        }
    }
    r
}

/// The index holding `key`, if any.
fn table_find(entries: &Vec<Entry>, key: &Vec<u8>) -> (r: Option<usize>)
    ensures
        r matches Some(i) ==> i < entries@.len() && entries@[i as int].0@ == key@ && (forall|j: int|
            0 <= j < i ==> entries@[j].0@ != key@),
        r is None ==> !has_entry(entries@, key@),
{
    let ghost s = entries@;
    let mut i: usize = 0;
    while i < entries.len()
        invariant
            0 <= i <= s.len(),
            s == entries@,
            forall|j: int| 0 <= j < i ==> s[j].0@ != key@,
        decreases s.len() - i,
    {
        if bytes_eq(&entries[i].0, key) {
            return Some(i);
        }
        i += 1;
    }
    proof {
        if has_entry(s, key@) {
            let w = choose|w: int| 0 <= w < s.len() && s[w].0@ == key@;
            assert(s[w].0@ != key@);
        }
    }
    None
}

/// Stores `rec` under `key` in the entry sequence, replacing or appending.
fn table_put(entries: &mut Vec<Entry>, key: &Vec<u8>, rec: Record)
    requires
        distinct_keys(old(entries)@),
    ensures
        distinct_keys(final (entries)@),
        entries_map(final (entries)@) == entries_map(old(entries)@).insert(key@, rec@),
{
    let ghost s = entries@;
    let ghost olddb = entries_map(s);
    let found = table_find(entries, key);
    match found {
        Some(i) => {
            entries.set(i, Entry(clone_bytes(key), rec));
            proof {
                let t = entries@;
                assert(t == s.update(i as int, t[i as int]));
                assert(distinct_keys(t));
                assert forall|k2: Seq<u8>| true implies #[trigger] has_entry(t, k2) == has_entry(
                    s,
                    k2,
                ) by {
                    if has_entry(t, k2) {
                        let w = choose|w: int| 0 <= w < t.len() && t[w].0@ == k2;
                        assert(s[w].0@ == k2);
                    }
                    if has_entry(s, k2) {
                        let w = choose|w: int| 0 <= w < s.len() && s[w].0@ == k2;
                        assert(t[w].0@ == k2);
                    }
                }
                assert forall|k2: Seq<u8>| has_entry(t, k2) implies t[entry_index(t, k2)].1@
                    == olddb.insert(key@, rec@)[k2] by {
                    let w = entry_index(t, k2);
                    assert(0 <= w < t.len() && t[w].0@ == k2);
                    if k2 == key@ {
                        assert(w == i as int);
                    } else {
                        assert(w != i as int);
                        assert(s[w].0@ == k2);
                        let v = entry_index(s, k2);
                        assert(s[v].0@ == k2);
                        assert(v == w);
                        assert(olddb[k2] == s[v].1@);
                    }
                }
                assert(entries_map(t) =~= olddb.insert(key@, rec@));
            }
        },
        None => {
            entries.push(Entry(clone_bytes(key), rec));
            proof {
                let t = entries@;
                assert(t == s.push(t[t.len() - 1]));
                assert(forall|j: int| 0 <= j < s.len() ==> t[j] == s[j]);
                assert(distinct_keys(t));
                assert forall|k2: Seq<u8>| true implies #[trigger] has_entry(t, k2) == (has_entry(
                    s,
                    k2,
                ) || k2 == key@) by {
                    if has_entry(t, k2) {
                        let w = choose|w: int| 0 <= w < t.len() && t[w].0@ == k2;
                        if w < s.len() {
                            assert(s[w].0@ == k2);
                        }
                    }
                    if has_entry(s, k2) {
                        let w = choose|w: int| 0 <= w < s.len() && s[w].0@ == k2;
                        assert(t[w].0@ == k2);
                    }
                    if k2 == key@ {
                        assert(t[t.len() - 1].0@ == k2);
                    }
                }
                assert forall|k2: Seq<u8>| has_entry(t, k2) implies t[entry_index(t, k2)].1@
                    == olddb.insert(key@, rec@)[k2] by {
                    let w = entry_index(t, k2);
                    assert(0 <= w < t.len() && t[w].0@ == k2);
                    if k2 == key@ {
                        assert(w == t.len() - 1);
                    } else {
                        assert(w < s.len());
                        assert(s[w].0@ == k2);
                        let v = entry_index(s, k2);
                        assert(s[v].0@ == k2);
                        assert(v == w);
                    }
                }
                assert(entries_map(t) =~= olddb.insert(key@, rec@));
            }
        },
    }
}

/// Removes whatever is stored under `key` from the entry sequence.
fn table_delete(entries: &mut Vec<Entry>, key: &Vec<u8>)
    requires
        distinct_keys(old(entries)@),
    ensures
        distinct_keys(final (entries)@),
        entries_map(final (entries)@) == entries_map(old(entries)@).remove(key@),
{
    let ghost s = entries@;
    let ghost olddb = entries_map(s);
    let found = table_find(entries, key);
    match found {
        Some(i) => {
            entries.remove(i);
            proof {
                let t = entries@;
                assert(t == s.remove(i as int));
                assert(forall|j: int| 0 <= j < i ==> t[j] == s[j]);
                assert(forall|j: int| i <= j < t.len() ==> t[j] == s[j + 1]);
                assert(distinct_keys(t));
                assert forall|k2: Seq<u8>| true implies #[trigger] has_entry(t, k2) == (has_entry(
                    s,
                    k2,
                ) && k2 != key@) by {
                    if has_entry(t, k2) {
                        let w = choose|w: int| 0 <= w < t.len() && t[w].0@ == k2;
                        if w < i {
                            assert(s[w].0@ == k2);
                        } else {
                            assert(s[w + 1].0@ == k2);
                        }
                    }
                    if has_entry(s, k2) && k2 != key@ {
                        let w = choose|w: int| 0 <= w < s.len() && s[w].0@ == k2;
                        assert(s[i as int].0@ == key@);
                        assert(w != i);
                        if w < i {
                            assert(t[w].0@ == k2);
                        } else {
                            assert(t[w - 1].0@ == k2);
                        }
                    }
                }
                assert forall|k2: Seq<u8>| has_entry(t, k2) implies t[entry_index(t, k2)].1@
                    == olddb[k2] by {
                    let w = entry_index(t, k2);
                    assert(0 <= w < t.len() && t[w].0@ == k2);
                    let v = entry_index(s, k2);
                    if w < i {
                        assert(s[w].0@ == k2);
                        assert(s[v].0@ == k2);
                        assert(v == w);
                    } else {
                        assert(s[w + 1].0@ == k2);
                        assert(s[v].0@ == k2);
                        assert(v == w + 1);
                    }
                }
                assert(entries_map(t) =~= olddb.remove(key@));
            }
        },
        None => {
            proof {
                assert(entries_map(s) =~= olddb.remove(key@));
            }
        },
    }
}

/// An in-memory backing store: an association list with distinct keys.
#[derive(Debug)]
pub struct MemStore {
    entries: Vec<Entry>,
}

impl MemStore {
    #[verifier::type_invariant]
    spec fn inv(&self) -> bool {
        distinct_keys(self.entries@)
    }

    /// An empty store.
    pub fn new() -> (s: Self)
        ensures
            s.db() == Map::<Seq<u8>, RecordV>::empty(),
    {
        let s = MemStore { entries: Vec::new() };
        proof {
            assert(s.db() =~= Map::<Seq<u8>, RecordV>::empty());
        }
        s
    }
}

impl Database for MemStore {
    closed spec fn db(&self) -> Map<Seq<u8>, RecordV> {
        entries_map(self.entries@)
    }

    fn get(&self, key: &Vec<u8>) -> (r: Result<Option<Record>, BackendError>) {
        proof {
            use_type_invariant(self);
        }
        let ghost s = self.entries@;
        let found = table_find(&self.entries, key);
        match found {
            Some(i) => {
                proof {
                    assert(s[i as int].0@ == key@);
                    assert(has_entry(s, key@));
                    let w = entry_index(s, key@);
                    assert(s[w].0@ == key@);
                    assert(w == i as int);
                }
                Ok(Some(clone_record(&self.entries[i].1)))
            },
            None => Ok(None),
        }
    }

    fn put(&mut self, key: &Vec<u8>, rec: Record) -> (r: Result<(), BackendError>) {
        proof {
            use_type_invariant(&*self);
        }
        let mut entries: Vec<Entry> = Vec::new();
        std::mem::swap(&mut entries, &mut self.entries);
        table_put(&mut entries, key, rec);
        self.entries = entries;
        Ok(())
    }

    fn delete(&mut self, key: &Vec<u8>) -> (r: Result<(), BackendError>) {
        proof {
            use_type_invariant(&*self);
        }
        let mut entries: Vec<Entry> = Vec::new();
        std::mem::swap(&mut entries, &mut self.entries);
        table_delete(&mut entries, key);
        self.entries = entries;
        Ok(())
    }

    fn entries(&self) -> (r: Vec<Entry>) {
        proof {
            use_type_invariant(self);
        }
        let ghost s = self.entries@;
        let mut out: Vec<Entry> = Vec::new();
        let mut i: usize = 0;
        while i < self.entries.len()
            invariant
                0 <= i <= s.len(),
                s == self.entries@,
                distinct_keys(s),
                out@.len() == i,
                forall|j: int| 0 <= j < i ==> #[trigger] out@[j]@ == s[j]@,
            decreases s.len() - i,
        {
            let e = &self.entries[i];
            out.push(Entry(clone_bytes(&e.0), clone_record(&e.1)));
            i += 1;
        }
        proof {
            assert forall|j: int| 0 <= j < out@.len() implies self.db().contains_key(
                #[trigger] out@[j].0@,
            ) && out@[j].1@ == self.db()[out@[j].0@] by {
                assert(out@[j]@ == s[j]@);
                assert(s[j].0@ == out@[j].0@);
                assert(has_entry(s, out@[j].0@));
                let v = entry_index(s, out@[j].0@);
                assert(s[v].0@ == out@[j].0@);
                assert(v == j);
            }
            assert forall|j: int, j2: int| 0 <= j < j2 < out@.len() implies out@[j].0@
                != out@[j2].0@ by {
                assert(out@[j]@ == s[j]@);
                assert(out@[j2]@ == s[j2]@);
            }
            assert forall|k: Seq<u8>| self.db().contains_key(k) implies exists|j: int|
                0 <= j < out@.len() && #[trigger] out@[j].0@ == k by {
                let w = entry_index(s, k);
                assert(s[w].0@ == k);
                assert(out@[w]@ == s[w]@);
                assert(out@[w].0@ == k);
            }
        }
        out
    }
}

} // verus!
