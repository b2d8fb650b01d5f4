//! The Kademlia record store: a capacity-bounded table of provider
//! advertisements ranked by distance to their key, the derived set of records
//! this node provides itself, and a value-record table persisted through a
//! pluggable backing store.

use crate::codec::decode;
use crate::codec::decode_ok;
use crate::codec::decode_spec;
use crate::codec::encode;
use crate::codec::encode_spec;
use crate::codec::Entry;
use crate::codec::Record;
use crate::codec::RecordV;
use crate::codec::ValueRecord;
use crate::database::bytes_eq;
use crate::database::clone_bytes;
use crate::database::Database;
use crate::keyspace::distance_lt;
use crate::keyspace::distance_of;
use vstd::prelude::*;

verus! {

broadcast use crate::database::lemma_bytes_deep_view;

/// Number of providers kept per key by default, matching the Kademlia
/// replication factor.
pub const K_VALUE: usize = 20;

/// Failures of the record store.
#[derive(Clone, Copy, Debug, PartialEq, Eq)]
pub enum StoreError {
    /// A `put` whose value exceeds the configured byte limit.
    ValueTooLarge,
    /// An `add_provider` for a brand-new key when the distinct-key capacity
    /// is exhausted.
    MaxProvidedKeys,
    /// A persisted entry that does not decode.
    DecodeError,
    /// A failure of the backing store, passed through.
    Backend,
}

/// Configuration of a store, immutable for its lifetime.
#[derive(Clone, Copy, Debug, PartialEq, Eq)]
pub struct StoreConfig {
    /// The maximum number of records.
    pub max_records: usize,
    /// The maximum size of record values, in bytes.
    pub max_value_bytes: usize,
    /// The maximum number of providers stored for a key.
    ///
    /// This should match up with the chosen replication factor.
    pub max_providers_per_key: usize,
    /// The maximum number of provider records for which the
    /// local node is the provider.
    pub max_provided_keys: usize,
}

impl Default for StoreConfig {
    /// The default capacities, kept in line with libp2p's memory store.
    fn default() -> (c: Self)
        ensures
            c.max_records == 1024,
            c.max_value_bytes == 65 * 1024,
            c.max_provided_keys == 1024,
            c.max_providers_per_key == K_VALUE,
    {
        Self {
            max_records: 1024,
            max_value_bytes: 65 * 1024,
            max_provided_keys: 1024,
            max_providers_per_key: K_VALUE,
        }
    }
}

/// An advertisement that a peer can supply the data a key names.
#[derive(Clone, Debug, PartialEq)]
pub struct ProviderRecord {
    /// The key of the provided data.
    pub key: Vec<u8>,
    /// The identifier bytes of the providing peer.
    pub provider: Vec<u8>,
    /// When the advertisement expires, in seconds, if ever.
    pub expires: Option<u64>,
    /// Transport addresses the provider is reachable at, as bytes.
    pub addresses: Vec<Vec<u8>>,
}

/// Spec view of a provider record.
pub ghost struct ProviderRecordV {
    pub key: Seq<u8>,
    pub provider: Seq<u8>,
    pub expires: Option<u64>,
    pub addresses: Seq<Seq<u8>>,
}

impl View for ProviderRecord {
    type V = ProviderRecordV;

    open spec fn view(&self) -> ProviderRecordV {
        ProviderRecordV {
            key: self.key@,
            provider: self.provider@,
            expires: self.expires,
            addresses: self.addresses.deep_view(),
        }
    }
}

impl DeepView for ProviderRecord {
    type V = ProviderRecordV;

    open spec fn deep_view(&self) -> ProviderRecordV {
        self@
    }
}

} // verus!

verus! {

/// The provider table as the contracts see it: each tracked key with its
/// distance-ordered list of provider records.
pub type TableV = Seq<(Seq<u8>, Seq<ProviderRecordV>)>;

/// Whether the table tracks `k`.
pub open spec fn has_table_key(t: TableV, k: Seq<u8>) -> bool {
    exists|i: int| 0 <= i < t.len() && t[i].0 == k
}

/// An index of the entry tracking `k`, when there is one.
pub open spec fn table_key_index(t: TableV, k: Seq<u8>) -> int {
    choose|i: int| 0 <= i < t.len() && t[i].0 == k
}

/// The provider list for `k`: the tracked list, or empty when untracked.
pub open spec fn providers_of(t: TableV, k: Seq<u8>) -> Seq<ProviderRecordV> {
    if has_table_key(t, k) {
        t[table_key_index(t, k)].1
    } else {
        Seq::empty()
    }
}

/// Ascending distance to `k` along the list.
pub open spec fn list_sorted(k: Seq<u8>, l: Seq<ProviderRecordV>) -> bool {
    forall|a: int, b: int|
        0 <= a < b < l.len() ==> distance_of(k, l[a].provider) <= distance_of(k, l[b].provider)
}

/// A well-formed per-key list: within capacity, sorted by distance, one
/// record per provider, every record keyed by `k`, and never left empty
/// (unless the capacity itself is zero).
pub open spec fn list_wf(k: Seq<u8>, l: Seq<ProviderRecordV>, cap: usize) -> bool {
    &&& l.len() <= cap
    &&& list_sorted(k, l)
    &&& forall|a: int, b: int| 0 <= a < b < l.len() ==> l[a].provider != l[b].provider
    &&& forall|a: int| 0 <= a < l.len() ==> (#[trigger] l[a]).key == k
    &&& (cap > 0 ==> l.len() > 0)
}

/// A well-formed table: distinct keys, each with a well-formed list.
pub open spec fn table_wf(t: TableV, cap: usize) -> bool {
    &&& forall|i: int, j: int| 0 <= i < j < t.len() ==> t[i].0 != t[j].0
    &&& forall|i: int| 0 <= i < t.len() ==> list_wf((#[trigger] t[i]).0, t[i].1, cap)
}

/// Whether the record occurs somewhere in the table.
pub open spec fn in_table(t: TableV, r: ProviderRecordV) -> bool {
    exists|i: int, j: int| 0 <= i < t.len() && 0 <= j < t[i].1.len() && t[i].1[j] == r
}

/// The local provided set holds exactly the table's records advertised by
/// the local node, each (key, provider) pair at most once.
pub open spec fn provided_sync(local: Seq<u8>, t: TableV, p: Seq<ProviderRecordV>) -> bool {
    &&& forall|m: int| 0 <= m < p.len() ==> (#[trigger] p[m]).provider == local && in_table(t, p[m])
    &&& forall|i: int, j: int|
        0 <= i < t.len() && 0 <= j < t[i].1.len() && (#[trigger] t[i].1[j]).provider == local
            ==> p.contains(t[i].1[j])
    &&& forall|m: int, n: int|
        0 <= m < n < p.len() ==> !(p[m].key == p[n].key && p[m].provider == p[n].provider)
}

/// A store of value records and provider records for the DHT engine,
/// persisting value records through the backing store `T`.
pub struct Store<T: Database> {
    /// The identifier bytes of the peer owning the store.
    local_key: Vec<u8>,
    /// The configuration of the store.
    config: StoreConfig,
    /// The stored (regular) records.
    records: T,
    /// The stored provider records, keyed by content key.
    providers: Vec<(Vec<u8>, Vec<ProviderRecord>)>,
    /// The set of all provider records for the node identified by
    /// `local_key`. Kept in sync with `providers`.
    provided: Vec<ProviderRecord>,
}

impl<T: Database> Store<T> {
    /// The local node's identifier bytes.
    pub closed spec fn local(&self) -> Seq<u8> {
        self.local_key@
    }

    /// The configuration.
    pub closed spec fn cfg(&self) -> StoreConfig {
        self.config
    }

    /// The provider table.
    pub closed spec fn table(&self) -> TableV {
        self.providers.deep_view()
    }

    /// The local provided set.
    pub closed spec fn provided_view(&self) -> Seq<ProviderRecordV> {
        self.provided.deep_view()
    }

    /// The persisted value records.
    pub closed spec fn records_view(&self) -> Map<Seq<u8>, RecordV> {
        self.records.db()
    }

    /// The store's invariant: the table within its capacities and well
    /// formed, and the provided set synchronized with it.
    pub open spec fn wf(&self) -> bool {
        &&& self.table().len() <= self.cfg().max_provided_keys
        &&& table_wf(self.table(), self.cfg().max_providers_per_key)
        &&& provided_sync(self.local(), self.table(), self.provided_view())
    }

    /// Creates a store with the given local identifier, configuration and
    /// value-record backing.
    pub fn with_config(local_id: Vec<u8>, config: StoreConfig, records: T) -> (s: Self)
        ensures
            s.wf(),
            s.local() == local_id@,
            s.cfg() == config,
            s.table() =~= Seq::<(Seq<u8>, Seq<ProviderRecordV>)>::empty(),
            s.provided_view() =~= Seq::<ProviderRecordV>::empty(),
            s.records_view() == records.db(),
    {
        let s = Store { local_key: local_id, config, records, providers: Vec::new(), provided: Vec::new() };
        proof {
            assert(s.table() =~= Seq::<(Seq<u8>, Seq<ProviderRecordV>)>::empty());
            assert(s.provided_view() =~= Seq::<ProviderRecordV>::empty());
        }
        s
    }

    /// Looks up the value record stored under `key`, decoding it at time
    /// `now`; absence is not an error.
    pub fn get(&self, key: &Vec<u8>, now: u64) -> (r: Result<Option<ValueRecord>, StoreError>)
        ensures
            r matches Ok(Some(v)) ==> self.records_view().contains_key(key@) && decode_ok(
                self.records_view()[key@],
            ) && v@ == decode_spec(key@, self.records_view()[key@], now),
            r matches Ok(None) ==> !self.records_view().contains_key(key@),
            r == Err::<Option<ValueRecord>, StoreError>(StoreError::DecodeError)
                ==> self.records_view().contains_key(key@) && !decode_ok(
                self.records_view()[key@],
            ),
            r matches Err(e) ==> e == StoreError::DecodeError || e == StoreError::Backend,
    {
        match self.records.get(key) {
            Ok(None) => Ok(None),
            Ok(Some(rec)) => match decode(Entry(clone_bytes(key), rec), now) {
                Ok(v) => Ok(Some(v)),
                Err(e) => Err(e),
            },
            Err(_) => Err(StoreError::Backend),
        }
    }

    /// Stores a value record, encoded at time `now`, overwriting any prior
    /// record at its key. Fails with `ValueTooLarge` exactly when the value
    /// reaches the configured byte limit, and leaves everything unchanged
    /// then; a backing failure is passed through, also changing nothing.
    pub fn put(&mut self, record: ValueRecord, now: u64) -> (r: Result<(), StoreError>)
        requires
            old(self).wf(),
        ensures
            final (self).wf(),
            final (self).local() == old(self).local(),
            final (self).cfg() == old(self).cfg(),
            final (self).table() == old(self).table(),
            final (self).provided_view() == old(self).provided_view(),
            r == Err::<(), StoreError>(StoreError::ValueTooLarge) <==> record.value@.len()
                >= old(self).cfg().max_value_bytes,
            r matches Err(e) ==> e == StoreError::ValueTooLarge || e == StoreError::Backend,
            r is Err ==> final (self).records_view() == old(self).records_view(),
            r is Ok ==> final (self).records_view() == old(self).records_view().insert(
                record@.key,
                encode_spec(record@, now).1,
            ),
    {
        if record.value.len() >= self.config.max_value_bytes {
            return Err(StoreError::ValueTooLarge);
        }
        let Entry(key, rec) = encode(record, now);
        match self.records.put(&key, rec) {
            Ok(u) => Ok(u),
            Err(_) => Err(StoreError::Backend),
        }
    }

    /// Best-effort removal of the value record under `key`: a failure of the
    /// backing store is swallowed, and nothing else changes either way.
    pub fn remove(&mut self, key: &Vec<u8>)
        requires
            old(self).wf(),
        ensures
            final (self).wf(),
            final (self).local() == old(self).local(),
            final (self).cfg() == old(self).cfg(),
            final (self).table() == old(self).table(),
            final (self).provided_view() == old(self).provided_view(),
            final (self).records_view() == old(self).records_view().remove(key@) || final (self).records_view() == old(self).records_view(),
    {
        let _ = self.records.delete(key);
    }

    /// Every stored value record, decoded at time `now`, in unspecified
    /// order; a record that does not decode surfaces as a `DecodeError` in
    /// its place without invalidating the others.
    pub fn records(&self, now: u64) -> (r: Vec<Result<ValueRecord, StoreError>>)
        ensures
            forall|i: int|
                0 <= i < r@.len() ==> match #[trigger] r@[i] {
                    Ok(v) => self.records_view().contains_key(v@.key) && decode_ok(
                        self.records_view()[v@.key],
                    ) && v@ == decode_spec(v@.key, self.records_view()[v@.key], now),
                    Err(e) => e == StoreError::DecodeError,
                },
            forall|k: Seq<u8>|
                #[trigger] self.records_view().contains_key(k) && decode_ok(
                    self.records_view()[k],
                ) ==> exists|i: int|
                    0 <= i < r@.len() && ((#[trigger] r@[i]) matches Ok(v) && v@.key == k),
    {
        let entries = self.records.entries();
        let ghost es = entries@;
        let mut out: Vec<Result<ValueRecord, StoreError>> = Vec::new();
        let mut i: usize = 0;
        while i < entries.len()
            invariant
                0 <= i <= es.len(),
                es == entries@,
                out@.len() == i,
                forall|j: int|
                    0 <= j < es.len() ==> self.records_view().contains_key(#[trigger] es[j].0@)
                        && es[j].1@ == self.records_view()[es[j].0@],
                forall|j: int|
                    0 <= j < i ==> match #[trigger] out@[j] {
                        Ok(v) => v@ == decode_spec(es[j].0@, es[j].1@, now) && decode_ok(es[j].1@),
                        Err(e) => e == StoreError::DecodeError && !decode_ok(es[j].1@),
                    },
            decreases es.len() - i,
        {
            let e = &entries[i];
            let entry = Entry(clone_bytes(&e.0), Record {
                value: clone_bytes(&e.1.value),
                publisher: clone_bytes(&e.1.publisher),
                ttl: e.1.ttl,
            });
            assert(entry@ == es[i as int]@);
            match decode(entry, now) {
                Ok(v) => {
                    out.push(Ok(v));
                },
                Err(err) => {
                    out.push(Err(err));
                },
            }
            i += 1;
        }
        proof {
            assert forall|k: Seq<u8>|
                #[trigger] self.records_view().contains_key(k) && decode_ok(
                    self.records_view()[k],
                ) implies exists|j: int|
                0 <= j < out@.len() && ((#[trigger] out@[j]) matches Ok(v) && v@.key == k) by {
                let w = choose|w: int| 0 <= w < es.len() && #[trigger] es[w].0@ == k;
                assert(es[w].1@ == self.records_view()[k]);
                assert(out@[w] matches Ok(v) && v@.key == k);
            }
            assert forall|i2: int| 0 <= i2 < out@.len() implies match #[trigger] out@[i2] {
                Ok(v) => self.records_view().contains_key(v@.key) && decode_ok(
                    self.records_view()[v@.key],
                ) && v@ == decode_spec(v@.key, self.records_view()[v@.key], now),
                Err(e) => e == StoreError::DecodeError,
            } by {
                match out@[i2] {
                    Ok(v) => {
                        assert(v@ == decode_spec(es[i2].0@, es[i2].1@, now));
                        assert(v@.key == es[i2].0@);
                    },
                    Err(_) => {},
                }
            }
        }
        out
    }
}

/// Copies a provider record.
fn clone_provider(r: &ProviderRecord) -> (c: ProviderRecord)
    ensures
        c@ == r@,
{
    let mut addresses: Vec<Vec<u8>> = Vec::new();
    let mut i: usize = 0;
    while i < r.addresses.len()
        invariant
            0 <= i <= r.addresses@.len(),
            addresses.deep_view().len() == i,
            forall|j: int| 0 <= j < i ==> addresses.deep_view()[j] == r.addresses.deep_view()[j],
        decreases r.addresses@.len() - i,
    {
        let ghost prev = addresses@;
        let ghost prevdv = addresses.deep_view();
        addresses.push(clone_bytes(&r.addresses[i]));
        assert(addresses@ == prev.push(addresses@[i as int]));
        assert(addresses.deep_view()[i as int] == r.addresses.deep_view()[i as int]);
        assert forall|j: int| 0 <= j < i implies addresses.deep_view()[j]
            == r.addresses.deep_view()[j] by {
            assert(addresses.deep_view()[j] == addresses@[j].deep_view());
            assert(addresses@[j] == prev[j]);
            assert(prevdv[j] == prev[j].deep_view());
        }
        i += 1;
    }
    proof {
        assert(addresses.deep_view() =~= r.addresses.deep_view());
    }
    ProviderRecord {
        key: clone_bytes(&r.key),
        provider: clone_bytes(&r.provider),
        expires: r.expires,
        addresses,
    }
}

} // verus!

verus! {

/// Whether the list holds a record from provider `p`.
pub open spec fn has_provider(l: Seq<ProviderRecordV>, p: Seq<u8>) -> bool {
    exists|j: int| 0 <= j < l.len() && l[j].provider == p
}

/// An index of provider `p` in the list, when there is one.
pub open spec fn provider_index(l: Seq<ProviderRecordV>, p: Seq<u8>) -> int {
    choose|j: int| 0 <= j < l.len() && l[j].provider == p
}

/// Whether the provided set holds a record for the pair (`k`, `p`).
pub open spec fn has_pair(s: Seq<ProviderRecordV>, k: Seq<u8>, p: Seq<u8>) -> bool {
    exists|m: int| 0 <= m < s.len() && s[m].key == k && s[m].provider == p
}

/// The table after removing provider `p` from key `k`: a no-op when the
/// pair is absent, and the key's whole entry is dropped when its list is
/// left (or found) empty.
pub open spec fn remove_provider_spec(t: TableV, k: Seq<u8>, p: Seq<u8>) -> TableV {
    if !has_table_key(t, k) {
        t
    } else {
        let i = table_key_index(t, k);
        let l = t[i].1;
        let l2 = if has_provider(l, p) {
            l.remove(provider_index(l, p))
        } else {
            l
        };
        if l2.len() == 0 {
            t.remove(i)
        } else {
            t.update(i, (t[i].0, l2))
        }
    }
}

/// A vector's deep view is its view, element by element.
proof fn lemma_deep_view_pointwise<A: DeepView>(v: Vec<A>)
    ensures
        v.deep_view().len() == v@.len(),
        forall|i: int| 0 <= i < v@.len() ==> v.deep_view()[i] == v@[i].deep_view(),
{
}

/// The index in the provider table holding `key`, if any.
fn find_key_index(providers: &Vec<(Vec<u8>, Vec<ProviderRecord>)>, key: &Vec<u8>) -> (r: Option<
    usize,
>)
    ensures
        r matches Some(i) ==> i < providers@.len() && providers.deep_view()[i as int].0 == key@,
        r is None ==> !has_table_key(providers.deep_view(), key@),
{
    proof {
        lemma_deep_view_pointwise(*providers);
    }
    let ghost t = providers.deep_view();
    let mut i: usize = 0;
    while i < providers.len()
        invariant
            0 <= i <= t.len(),
            t == providers.deep_view(),
            t.len() == providers@.len(),
            forall|j: int| 0 <= j < t.len() ==> t[j] == providers@[j].deep_view(),
            forall|j: int| 0 <= j < i ==> t[j].0 != key@,
        decreases t.len() - i,
    {
        if bytes_eq(&providers[i].0, key) {
            assert(t[i as int].0 == key@);
            return Some(i);
        }
        assert(t[i as int].0 != key@);
        i += 1;
    }
    proof {
        if has_table_key(t, key@) {
            let w = choose|w: int| 0 <= w < t.len() && t[w].0 == key@;
            assert(t[w].0 != key@);
        }
    }
    None
}

/// The index of `provider` in the list, if any.
fn find_provider_index(list: &Vec<ProviderRecord>, provider: &Vec<u8>) -> (r: Option<usize>)
    ensures
        r matches Some(i) ==> i < list@.len() && list.deep_view()[i as int].provider == provider@,
        r is None ==> !has_provider(list.deep_view(), provider@),
{
    proof {
        lemma_deep_view_pointwise(*list);
    }
    let ghost l = list.deep_view();
    let mut i: usize = 0;
    while i < list.len()
        invariant
            0 <= i <= l.len(),
            l == list.deep_view(),
            l.len() == list@.len(),
            forall|j: int| 0 <= j < l.len() ==> l[j] == list@[j].deep_view(),
            forall|j: int| 0 <= j < i ==> l[j].provider != provider@,
        decreases l.len() - i,
    {
        if bytes_eq(&list[i].provider, provider) {
            assert(l[i as int].provider == provider@);
            return Some(i);
        }
        assert(l[i as int].provider != provider@);
        i += 1;
    }
    proof {
        if has_provider(l, provider@) {
            let w = choose|w: int| 0 <= w < l.len() && l[w].provider == provider@;
            assert(l[w].provider != provider@);
        }
    }
    None
}

/// Removes the first record for the pair (`key`, `provider`) from the
/// provided set, if any.
fn provided_remove(provided: &mut Vec<ProviderRecord>, key: &Vec<u8>, provider: &Vec<u8>)
    ensures
        !has_pair(old(provided).deep_view(), key@, provider@) ==> final (provided).deep_view()
            == old(provided).deep_view(),
        has_pair(old(provided).deep_view(), key@, provider@) ==> exists|m: int|
            0 <= m < old(provided).deep_view().len() && (#[trigger] old(
                provided,
            ).deep_view()[m]).key == key@ && old(provided).deep_view()[m].provider == provider@
                && final (provided).deep_view() == old(provided).deep_view().remove(m),
{
    proof {
        lemma_deep_view_pointwise(*provided);
    }
    let ghost p0 = old(provided).deep_view();
    let mut i: usize = 0;
    while i < provided.len()
        invariant
            0 <= i <= p0.len(),
            p0 == provided.deep_view(),
            *provided == *old(provided),
            p0.len() == provided@.len(),
            forall|j: int| 0 <= j < p0.len() ==> p0[j] == provided@[j].deep_view(),
            forall|j: int| 0 <= j < i ==> !(p0[j].key == key@ && p0[j].provider == provider@),
        decreases p0.len() - i,
    {
        if bytes_eq(&provided[i].key, key) && bytes_eq(&provided[i].provider, provider) {
            assert(p0[i as int].key == key@ && p0[i as int].provider == provider@);
            let ghost pv = *provided;
            provided.remove(i);
            proof {
                lemma_deep_view_pointwise(pv);
                lemma_deep_view_pointwise(*provided);
                assert(provided@ == pv@.remove(i as int));
                assert(provided.deep_view() =~= p0.remove(i as int));
            }
            return ;
        }
        assert(!(p0[i as int].key == key@ && p0[i as int].provider == provider@));
        i += 1;
    }
    proof {
        if has_pair(p0, key@, provider@) {
            let w = choose|w: int| 0 <= w < p0.len() && p0[w].key == key@ && p0[w].provider == provider@;
            assert(!(p0[w].key == key@ && p0[w].provider == provider@));
        }
    }
}

impl<T: Database> Store<T> {
    /// The current provider records for `key`, closest first: a snapshot,
    /// sorted ascending by distance to the key and never longer than the
    /// configured per-key capacity.
    pub fn providers(&self, key: &Vec<u8>) -> (r: Vec<ProviderRecord>)
        requires
            self.wf(),
        ensures
            r.deep_view() == providers_of(self.table(), key@),
            r@.len() <= self.cfg().max_providers_per_key,
            list_sorted(key@, r.deep_view()),
    {
        let ghost t = self.table();
        let ki_opt = find_key_index(&self.providers, key);
        match ki_opt {
            Some(ki) => {
                proof {
                    let w = table_key_index(t, key@);
                    assert(t[ki as int].0 == key@);
                    assert(has_table_key(t, key@));
                    assert(t[w].0 == key@);
                    assert(w == ki as int);
                    lemma_deep_view_pointwise(self.providers);
                }
                let r = clone_provider_list(&self.providers[ki].1);
                assert(r.deep_view() == t[ki as int].1);
                r
            },
            None => {
                let r: Vec<ProviderRecord> = Vec::new();
                proof {
                    lemma_deep_view_pointwise(r);
                    assert(r.deep_view() =~= Seq::<ProviderRecordV>::empty());
                }
                r
            },
        }
    }

    /// The records this node currently provides itself: a snapshot of the
    /// local provided set, in unspecified order.
    pub fn provided(&self) -> (r: Vec<ProviderRecord>)
        ensures
            r.deep_view() == self.provided_view(),
    {
        clone_provider_list(&self.provided)
    }

    /// Removes provider `provider` from the list for `key`, dropping the
    /// key's entry entirely when its list is left empty, and keeping the
    /// provided set synchronized. A no-op when the pair is absent.
    pub fn remove_provider(&mut self, key: &Vec<u8>, provider: &Vec<u8>)
        requires
            old(self).wf(),
        ensures
            final (self).wf(),
            final (self).local() == old(self).local(),
            final (self).cfg() == old(self).cfg(),
            final (self).records_view() == old(self).records_view(),
            final (self).table() == remove_provider_spec(old(self).table(), key@, provider@),
            !has_provider(providers_of(old(self).table(), key@), provider@) ==> final (self).provided_view() == old(self).provided_view(),
    {
        let ghost t0 = self.table();
        let ghost p0 = self.provided_view();
        let ghost local = self.local();
        let ki_opt = find_key_index(&self.providers, key);
        match ki_opt {
            None => {
            },
            Some(ki) => {
                proof {
                    let w = table_key_index(t0, key@);
                    assert(t0[ki as int].0 == key@);
                    assert(has_table_key(t0, key@));
                    assert(t0[w].0 == key@);
                    assert(w == ki as int);
                    lemma_deep_view_pointwise(self.providers);
                }
                let pair = self.providers.remove(ki);
                let key_b = pair.0;
                let mut list = pair.1;
                proof {
                    lemma_deep_view_pointwise(self.providers);
                    assert(self.providers.deep_view() =~= t0.remove(ki as int));
                    assert(pair.deep_view() == t0[ki as int]);
                }
                let ghost l0 = t0[ki as int].1;
                assert(list.deep_view() == l0);
                let pi_opt = find_provider_index(&list, provider);
                match pi_opt {
                    Some(pi) => {
                        proof {
                            let w2 = provider_index(l0, provider@);
                            assert(l0[pi as int].provider == provider@);
                            assert(has_provider(l0, provider@));
                            assert(l0[w2].provider == provider@);
                            assert(w2 == pi as int);
                            lemma_deep_view_pointwise(list);
                        }
                        let ghost lvec0 = list;
                        list.remove(pi);
                        proof {
                            lemma_deep_view_pointwise(lvec0);
                            lemma_deep_view_pointwise(list);
                            assert(list.deep_view() =~= l0.remove(pi as int));
                        }
                        provided_remove(&mut self.provided, key, provider);
                        let ghost l2 = list.deep_view();
                        if list.len() == 0 {
                            proof {
                                lemma_remove_provider_drop_key(
                                    local,
                                    t0,
                                    p0,
                                    self.provided_view(),
                                    ki as int,
                                    pi as int,
                                    key@,
                                    provider@,
                                    self.cfg().max_providers_per_key,
                                    self.cfg().max_provided_keys,
                                );
                            }
                        } else {
                            let ghost pvec1 = self.providers;
                            self.providers.insert(ki, (key_b, list));
                            proof {
                                lemma_deep_view_pointwise(pvec1);
                                lemma_deep_view_pointwise(self.providers);
                                assert(self.providers.deep_view() =~= t0.update(
                                    ki as int,
                                    (key@, l2),
                                ));
                                lemma_remove_provider_update_key(
                                    local,
                                    t0,
                                    p0,
                                    self.provided_view(),
                                    ki as int,
                                    pi as int,
                                    key@,
                                    provider@,
                                    self.cfg().max_providers_per_key,
                                    self.cfg().max_provided_keys,
                                );
                            }
                        }
                    },
                    None => {
                        proof {
                            assert forall|j: int| 0 <= j < l0.len() implies l0[j].provider
                                != provider@ by {
                                if l0[j].provider == provider@ {
                                    assert(has_provider(l0, provider@));
                                }
                            }
                        }
                        if list.len() == 0 {
                            proof {
                                lemma_remove_provider_empty_list(
                                    local,
                                    t0,
                                    p0,
                                    ki as int,
                                    key@,
                                    provider@,
                                    self.cfg().max_providers_per_key,
                                    self.cfg().max_provided_keys,
                                );
                            }
                        } else {
                            let ghost pvec1 = self.providers;
                            self.providers.insert(ki, (key_b, list));
                            proof {
                                lemma_deep_view_pointwise(pvec1);
                                lemma_deep_view_pointwise(self.providers);
                                assert(self.providers.deep_view() =~= t0.update(
                                    ki as int,
                                    (key@, l0),
                                ));
                                assert(t0.update(ki as int, (key@, l0)) =~= t0);
                                assert(remove_provider_spec(t0, key@, provider@) == t0);
                            }
                        }
                    },
                }
            },
        }
    }
}

} // verus!

verus! {

/// Copies a list of provider records.
fn clone_provider_list(l: &Vec<ProviderRecord>) -> (r: Vec<ProviderRecord>)
    ensures
        r.deep_view() == l.deep_view(),
        r@.len() == l@.len(),
{
    proof {
        lemma_deep_view_pointwise(*l);
    }
    let mut r: Vec<ProviderRecord> = Vec::new();
    let mut i: usize = 0;
    while i < l.len()
        invariant
            0 <= i <= l@.len(),
            r.deep_view().len() == i,
            r@.len() == i,
            forall|j: int| 0 <= j < l@.len() ==> l.deep_view()[j] == l@[j].deep_view(),
            forall|j: int| 0 <= j < i ==> r.deep_view()[j] == l.deep_view()[j],
        decreases l@.len() - i,
    {
        let ghost prev = r@;
        let ghost prevdv = r.deep_view();
        r.push(clone_provider(&l[i]));
        assert(r@ == prev.push(r@[i as int]));
        assert(r.deep_view()[i as int] == l.deep_view()[i as int]);
        assert forall|j: int| 0 <= j < i implies r.deep_view()[j] == l.deep_view()[j] by {
            assert(r.deep_view()[j] == r@[j].deep_view());
            assert(r@[j] == prev[j]);
            assert(prevdv[j] == prev[j].deep_view());
        }
        i += 1;
    }
    proof {
        assert(r.deep_view() =~= l.deep_view());
    }
    r
}

/// After removing the only provider of a key and dropping the key's entry,
/// the table stays well formed and the provided set stays synchronized.
proof fn lemma_remove_provider_drop_key(
    local: Seq<u8>,
    t0: TableV,
    p0: Seq<ProviderRecordV>,
    p1: Seq<ProviderRecordV>,
    ki: int,
    pi: int,
    key: Seq<u8>,
    provider: Seq<u8>,
    cap: usize,
    maxk: usize,
)
    requires
        table_wf(t0, cap),
        t0.len() <= maxk,
        provided_sync(local, t0, p0),
        0 <= ki < t0.len(),
        t0[ki].0 == key,
        0 <= pi < t0[ki].1.len(),
        t0[ki].1[pi].provider == provider,
        t0[ki].1.remove(pi).len() == 0,
        !has_pair(p0, key, provider) ==> p1 == p0,
        has_pair(p0, key, provider) ==> exists|m: int|
            0 <= m < p0.len() && (#[trigger] p0[m]).key == key && p0[m].provider == provider && p1
                == p0.remove(m),
    ensures
        table_wf(t0.remove(ki), cap),
        t0.remove(ki).len() <= maxk,
        provided_sync(local, t0.remove(ki), p1),
        remove_provider_spec(t0, key, provider) == t0.remove(ki),
{
    let l0 = t0[ki].1;
    let t1 = t0.remove(ki);
    assert(l0.len() == 1 && pi == 0);
    assert(l0[0].key == key);
    assert(forall|j: int| 0 <= j < ki ==> t1[j] == t0[j]);
    assert(forall|j: int| ki <= j < t1.len() ==> t1[j] == t0[j + 1]);
    assert forall|i: int, j: int| 0 <= i < j < t1.len() implies t1[i].0 != t1[j].0 by {
        let i0 = if i < ki { i } else { i + 1 };
        let j0 = if j < ki { j } else { j + 1 };
        assert(t1[i] == t0[i0] && t1[j] == t0[j0]);
    }
    assert forall|i: int| 0 <= i < t1.len() implies list_wf((#[trigger] t1[i]).0, t1[i].1, cap) by {
        let i0 = if i < ki { i } else { i + 1 };
        assert(t1[i] == t0[i0]);
    }
    // the spec takes the same branch
    assert(has_table_key(t0, key));
    let w = table_key_index(t0, key);
    assert(t0[w].0 == key);
    assert(w == ki);
    assert(has_provider(l0, provider));
    let w2 = provider_index(l0, provider);
    assert(l0[w2].provider == provider);
    assert(w2 == pi);
    assert(remove_provider_spec(t0, key, provider) == t1);
    // records of other keys never equal a record keyed by `key`
    assert forall|i2: int, j2: int|
        0 <= i2 < t0.len() && 0 <= j2 < t0[i2].1.len() && (#[trigger] t0[i2].1[j2]).key == key
            implies i2 == ki by {
        assert(list_wf(t0[i2].0, t0[i2].1, cap));
        assert(t0[i2].1[j2].key == t0[i2].0);
        if i2 != ki {
            assert(t0[i2].0 != t0[ki].0);
            assert(false);
        }
    }
    if l0[0].provider == local {
        assert(p0.contains(l0[0]));
        let m0 = choose|m: int| 0 <= m < p0.len() && p0[m] == l0[0];
        assert(p0[m0].key == key && p0[m0].provider == provider);
        assert(has_pair(p0, key, provider));
        let m = choose|m: int|
            0 <= m < p0.len() && (#[trigger] p0[m]).key == key && p0[m].provider == provider && p1
                == p0.remove(m);
        // the removed provided entry is exactly the dropped record
        assert(in_table(t0, p0[m]));
        let (i2, j2) = choose|i2: int, j2: int|
            0 <= i2 < t0.len() && 0 <= j2 < t0[i2].1.len() && t0[i2].1[j2] == p0[m];
        assert(i2 == ki && j2 == 0);
        assert(p0[m] == l0[0]);
        assert(forall|n: int| 0 <= n < m ==> p1[n] == p0[n]);
        assert(forall|n: int| m <= n < p1.len() ==> p1[n] == p0[n + 1]);
        assert forall|n: int| 0 <= n < p1.len() implies (#[trigger] p1[n]).provider == local
            && in_table(t1, p1[n]) by {
            let n0 = if n < m { n } else { n + 1 };
            assert(p1[n] == p0[n0]);
            assert(in_table(t0, p0[n0]));
            let (a, b) = choose|a: int, b: int|
                0 <= a < t0.len() && 0 <= b < t0[a].1.len() && t0[a].1[b] == p0[n0];
            if a == ki {
                assert(b == 0);
                assert(p0[n0] == l0[0]);
                assert(p0[n0].key == p0[m].key && p0[n0].provider == p0[m].provider);
                assert(n0 == m);
                assert(false);
            }
            let a1 = if a < ki { a } else { a - 1 };
            assert(t1[a1] == t0[a]);
            assert(t1[a1].1[b] == p0[n0]);
            assert(in_table(t1, p1[n]));
        }
        assert forall|i: int, j: int|
            0 <= i < t1.len() && 0 <= j < t1[i].1.len() && (#[trigger] t1[i].1[j]).provider
                == local implies p1.contains(t1[i].1[j]) by {
            let i0 = if i < ki { i } else { i + 1 };
            assert(t1[i] == t0[i0]);
            assert(t0[i0].1[j].provider == local);
            assert(p0.contains(t0[i0].1[j]));
            let n = choose|n: int| 0 <= n < p0.len() && p0[n] == t0[i0].1[j];
            assert(i0 != ki);
            if n == m {
                assert(p0[m].key == key);
                assert(t0[i0].1[j].key == key);
                assert(i0 == ki);
                assert(false);
            }
            let n1 = if n < m { n } else { n - 1 };
            assert(p1[n1] == p0[n]);
            assert(p1.contains(t1[i].1[j]));
        }
        assert forall|m2: int, n2: int| 0 <= m2 < n2 < p1.len() implies !(p1[m2].key == p1[n2].key
            && p1[m2].provider == p1[n2].provider) by {
            let m0 = if m2 < m { m2 } else { m2 + 1 };
            let n0 = if n2 < m { n2 } else { n2 + 1 };
            assert(p1[m2] == p0[m0] && p1[n2] == p0[n0]);
        }
    } else {
        assert forall|n: int| 0 <= n < p0.len() implies !((#[trigger] p0[n]).key == key && p0[n].provider
            == provider) by {
            assert(p0[n].provider == local);
        }
        assert(!has_pair(p0, key, provider));
        assert(p1 == p0);
        assert forall|n: int| 0 <= n < p1.len() implies (#[trigger] p1[n]).provider == local
            && in_table(t1, p1[n]) by {
            assert(in_table(t0, p0[n]));
            let (a, b) = choose|a: int, b: int|
                0 <= a < t0.len() && 0 <= b < t0[a].1.len() && t0[a].1[b] == p0[n];
            if a == ki {
                assert(b == 0);
                assert(p0[n].provider == l0[0].provider);
                assert(false);
            }
            let a1 = if a < ki { a } else { a - 1 };
            assert(t1[a1] == t0[a]);
            assert(t1[a1].1[b] == p0[n]);
        }
        assert forall|i: int, j: int|
            0 <= i < t1.len() && 0 <= j < t1[i].1.len() && (#[trigger] t1[i].1[j]).provider
                == local implies p1.contains(t1[i].1[j]) by {
            let i0 = if i < ki { i } else { i + 1 };
            assert(t1[i] == t0[i0]);
            assert(p0.contains(t0[i0].1[j]));
        }
    }
}

/// After removing one of several providers of a key, the table stays well
/// formed and the provided set stays synchronized.
proof fn lemma_remove_provider_update_key(
    local: Seq<u8>,
    t0: TableV,
    p0: Seq<ProviderRecordV>,
    p1: Seq<ProviderRecordV>,
    ki: int,
    pi: int,
    key: Seq<u8>,
    provider: Seq<u8>,
    cap: usize,
    maxk: usize,
)
    requires
        table_wf(t0, cap),
        t0.len() <= maxk,
        provided_sync(local, t0, p0),
        0 <= ki < t0.len(),
        t0[ki].0 == key,
        0 <= pi < t0[ki].1.len(),
        t0[ki].1[pi].provider == provider,
        t0[ki].1.remove(pi).len() > 0,
        !has_pair(p0, key, provider) ==> p1 == p0,
        has_pair(p0, key, provider) ==> exists|m: int|
            0 <= m < p0.len() && (#[trigger] p0[m]).key == key && p0[m].provider == provider && p1
                == p0.remove(m),
    ensures
        table_wf(t0.update(ki, (key, t0[ki].1.remove(pi))), cap),
        t0.update(ki, (key, t0[ki].1.remove(pi))).len() <= maxk,
        provided_sync(local, t0.update(ki, (key, t0[ki].1.remove(pi))), p1),
        remove_provider_spec(t0, key, provider) == t0.update(ki, (key, t0[ki].1.remove(pi))),
{
    let l0 = t0[ki].1;
    let l2 = l0.remove(pi);
    let t1 = t0.update(ki, (key, l2));
    assert(forall|j: int| 0 <= j < pi ==> l2[j] == l0[j]);
    assert(forall|j: int| pi <= j < l2.len() ==> l2[j] == l0[j + 1]);
    assert(l0[pi].key == key);
    // the spec takes the same branch
    assert(has_table_key(t0, key));
    let w = table_key_index(t0, key);
    assert(t0[w].0 == key);
    assert(w == ki);
    assert(has_provider(l0, provider));
    let w2 = provider_index(l0, provider);
    assert(l0[w2].provider == provider);
    assert forall|j: int| 0 <= j < l0.len() && l0[j].provider == provider implies j == pi by {
        if j != pi {
            assert(l0[j].provider != l0[pi].provider);
        }
    }
    assert(w2 == pi);
    assert(remove_provider_spec(t0, key, provider) == t1);
    // the updated list is well formed
    assert(list_wf(key, l0, cap));
    assert forall|a: int, b: int| 0 <= a < b < l2.len() implies distance_of(key, l2[a].provider)
        <= distance_of(key, l2[b].provider) && l2[a].provider != l2[b].provider by {
        let a0 = if a < pi { a } else { a + 1 };
        let b0 = if b < pi { b } else { b + 1 };
        assert(l2[a] == l0[a0] && l2[b] == l0[b0]);
    }
    assert(list_wf(key, l2, cap));
    assert forall|i: int| 0 <= i < t1.len() implies list_wf((#[trigger] t1[i]).0, t1[i].1, cap) by {
        if i != ki {
            assert(t1[i] == t0[i]);
        }
    }
    assert forall|i: int, j: int| 0 <= i < j < t1.len() implies t1[i].0 != t1[j].0 by {
        assert(t1[i].0 == t0[i].0 && t1[j].0 == t0[j].0);
    }
    // records keyed by `key` sit only in entry `ki`
    assert forall|i2: int, j2: int|
        0 <= i2 < t0.len() && 0 <= j2 < t0[i2].1.len() && (#[trigger] t0[i2].1[j2]).key == key
            implies i2 == ki by {
        assert(list_wf(t0[i2].0, t0[i2].1, cap));
        assert(t0[i2].1[j2].key == t0[i2].0);
        if i2 != ki {
            assert(t0[i2].0 != t0[ki].0);
            assert(false);
        }
    }
    if l0[pi].provider == local {
        assert(p0.contains(l0[pi]));
        let m0 = choose|m: int| 0 <= m < p0.len() && p0[m] == l0[pi];
        assert(p0[m0].key == key && p0[m0].provider == provider);
        assert(has_pair(p0, key, provider));
        let m = choose|m: int|
            0 <= m < p0.len() && (#[trigger] p0[m]).key == key && p0[m].provider == provider && p1
                == p0.remove(m);
        assert(in_table(t0, p0[m]));
        let (i2, j2) = choose|i2: int, j2: int|
            0 <= i2 < t0.len() && 0 <= j2 < t0[i2].1.len() && t0[i2].1[j2] == p0[m];
        assert(i2 == ki);
        assert(l0[j2].provider == provider);
        assert(j2 == pi);
        assert(p0[m] == l0[pi]);
        assert(forall|n: int| 0 <= n < m ==> p1[n] == p0[n]);
        assert(forall|n: int| m <= n < p1.len() ==> p1[n] == p0[n + 1]);
        assert forall|n: int| 0 <= n < p1.len() implies (#[trigger] p1[n]).provider == local
            && in_table(t1, p1[n]) by {
            let n0 = if n < m { n } else { n + 1 };
            assert(p1[n] == p0[n0]);
            assert(in_table(t0, p0[n0]));
            let (a, b) = choose|a: int, b: int|
                0 <= a < t0.len() && 0 <= b < t0[a].1.len() && t0[a].1[b] == p0[n0];
            if a == ki {
                assert(l0[b] == p0[n0]);
                if b == pi {
                    assert(p0[n0].key == p0[m].key && p0[n0].provider == p0[m].provider);
                    assert(n0 == m);
                    assert(false);
                }
                let b1 = if b < pi { b } else { b - 1 };
                assert(l2[b1] == l0[b]);
                assert(t1[ki].1[b1] == p0[n0]);
                assert(in_table(t1, p1[n]));
            } else {
                assert(t1[a] == t0[a]);
                assert(t1[a].1[b] == p0[n0]);
                assert(in_table(t1, p1[n]));
            }
        }
        assert forall|i: int, j: int|
            0 <= i < t1.len() && 0 <= j < t1[i].1.len() && (#[trigger] t1[i].1[j]).provider
                == local implies p1.contains(t1[i].1[j]) by {
            let r = t1[i].1[j];
            if i == ki {
                let j0 = if j < pi { j } else { j + 1 };
                assert(r == l0[j0]);
                assert(j0 != pi);
                assert(p0.contains(r));
                let n = choose|n: int| 0 <= n < p0.len() && p0[n] == r;
                if n == m {
                    assert(l0[j0] == l0[pi]);
                    assert(l0[j0].provider == l0[pi].provider);
                    assert(false);
                }
                let n1 = if n < m { n } else { n - 1 };
                assert(p1[n1] == p0[n]);
                assert(p1.contains(r));
            } else {
                assert(t1[i] == t0[i]);
                assert(p0.contains(r));
                let n = choose|n: int| 0 <= n < p0.len() && p0[n] == r;
                if n == m {
                    assert(r.key == key);
                    assert(i == ki);
                    assert(false);
                }
                let n1 = if n < m { n } else { n - 1 };
                assert(p1[n1] == p0[n]);
                assert(p1.contains(r));
            }
        }
        assert forall|m2: int, n2: int| 0 <= m2 < n2 < p1.len() implies !(p1[m2].key == p1[n2].key
            && p1[m2].provider == p1[n2].provider) by {
            let m0 = if m2 < m { m2 } else { m2 + 1 };
            let n0 = if n2 < m { n2 } else { n2 + 1 };
            assert(p1[m2] == p0[m0] && p1[n2] == p0[n0]);
        }
    } else {
        assert forall|n: int| 0 <= n < p0.len() implies !((#[trigger] p0[n]).key == key
            && p0[n].provider == provider) by {
            assert(p0[n].provider == local);
        }
        assert(!has_pair(p0, key, provider));
        assert(p1 == p0);
        assert forall|n: int| 0 <= n < p1.len() implies (#[trigger] p1[n]).provider == local
            && in_table(t1, p1[n]) by {
            assert(in_table(t0, p0[n]));
            let (a, b) = choose|a: int, b: int|
                0 <= a < t0.len() && 0 <= b < t0[a].1.len() && t0[a].1[b] == p0[n];
            if a == ki {
                assert(l0[b] == p0[n]);
                if b == pi {
                    assert(p0[n].provider == provider);
                    assert(false);
                }
                let b1 = if b < pi { b } else { b - 1 };
                assert(l2[b1] == l0[b]);
                assert(t1[ki].1[b1] == p0[n]);
                assert(in_table(t1, p1[n]));
            } else {
                assert(t1[a] == t0[a]);
                assert(t1[a].1[b] == p0[n]);
                assert(in_table(t1, p1[n]));
            }
        }
        assert forall|i: int, j: int|
            0 <= i < t1.len() && 0 <= j < t1[i].1.len() && (#[trigger] t1[i].1[j]).provider
                == local implies p1.contains(t1[i].1[j]) by {
            let r = t1[i].1[j];
            if i == ki {
                let j0 = if j < pi { j } else { j + 1 };
                assert(r == l0[j0]);
                assert(p0.contains(r));
            } else {
                assert(t1[i] == t0[i]);
                assert(p0.contains(r));
            }
        }
    }
}

/// Removing a provider from a key whose list is already empty drops the
/// key's entry; nothing in the provided set refers to it.
proof fn lemma_remove_provider_empty_list(
    local: Seq<u8>,
    t0: TableV,
    p0: Seq<ProviderRecordV>,
    ki: int,
    key: Seq<u8>,
    provider: Seq<u8>,
    cap: usize,
    maxk: usize,
)
    requires
        table_wf(t0, cap),
        t0.len() <= maxk,
        provided_sync(local, t0, p0),
        0 <= ki < t0.len(),
        t0[ki].0 == key,
        t0[ki].1.len() == 0,
        !has_provider(t0[ki].1, provider),
    ensures
        table_wf(t0.remove(ki), cap),
        t0.remove(ki).len() <= maxk,
        provided_sync(local, t0.remove(ki), p0),
        remove_provider_spec(t0, key, provider) == t0.remove(ki),
{
    let t1 = t0.remove(ki);
    assert(forall|j: int| 0 <= j < ki ==> t1[j] == t0[j]);
    assert(forall|j: int| ki <= j < t1.len() ==> t1[j] == t0[j + 1]);
    assert forall|i: int, j: int| 0 <= i < j < t1.len() implies t1[i].0 != t1[j].0 by {
        let i0 = if i < ki { i } else { i + 1 };
        let j0 = if j < ki { j } else { j + 1 };
        assert(t1[i] == t0[i0] && t1[j] == t0[j0]);
    }
    assert forall|i: int| 0 <= i < t1.len() implies list_wf((#[trigger] t1[i]).0, t1[i].1, cap) by {
        let i0 = if i < ki { i } else { i + 1 };
        assert(t1[i] == t0[i0]);
    }
    assert(has_table_key(t0, key));
    let w = table_key_index(t0, key);
    assert(t0[w].0 == key);
    assert(w == ki);
    assert(remove_provider_spec(t0, key, provider) == t1);
    assert forall|n: int| 0 <= n < p0.len() implies (#[trigger] p0[n]).provider == local
        && in_table(t1, p0[n]) by {
        assert(in_table(t0, p0[n]));
        let (a, b) = choose|a: int, b: int|
            0 <= a < t0.len() && 0 <= b < t0[a].1.len() && t0[a].1[b] == p0[n];
        assert(a != ki);
        let a1 = if a < ki { a } else { a - 1 };
        assert(t1[a1] == t0[a]);
        assert(t1[a1].1[b] == p0[n]);
    }
    assert forall|i: int, j: int|
        0 <= i < t1.len() && 0 <= j < t1[i].1.len() && (#[trigger] t1[i].1[j]).provider == local
            implies p0.contains(t1[i].1[j]) by {
        let i0 = if i < ki { i } else { i + 1 };
        assert(t1[i] == t0[i0]);
        assert(p0.contains(t0[i0].1[j]));
    }
}

} // verus!

verus! {

/// The first position in the list whose provider is strictly farther from
/// `k` than `p`, or the list's length when there is none.
pub open spec fn insert_pos(k: Seq<u8>, l: Seq<ProviderRecordV>, p: Seq<u8>) -> int
    decreases l.len(),
{
    if l.len() == 0 {
        0
    } else if distance_of(k, p) < distance_of(k, l[0].provider) {
        0
    } else {
        1 + insert_pos(k, l.drop_first(), p)
    }
}

/// What `insert_pos` returns: the first strictly-farther position.
proof fn lemma_insert_pos_char(k: Seq<u8>, l: Seq<ProviderRecordV>, p: Seq<u8>)
    ensures
        0 <= insert_pos(k, l, p) <= l.len(),
        forall|j: int|
            0 <= j < insert_pos(k, l, p) ==> !(distance_of(k, p) < distance_of(
                k,
                (#[trigger] l[j]).provider,
            )),
        insert_pos(k, l, p) < l.len() ==> distance_of(k, p) < distance_of(
            k,
            l[insert_pos(k, l, p)].provider,
        ),
    decreases l.len(),
{
    if l.len() == 0 {
    } else if distance_of(k, p) < distance_of(k, l[0].provider) {
    } else {
        lemma_insert_pos_char(k, l.drop_first(), p);
        assert(forall|j: int| 0 <= j < l.len() - 1 ==> #[trigger] l.drop_first()[j] == l[j + 1]);
        let pos = insert_pos(k, l, p);
        assert(pos == 1 + insert_pos(k, l.drop_first(), p));
        assert forall|j: int| 0 <= j < pos implies !(distance_of(k, p) < distance_of(
            k,
            (#[trigger] l[j]).provider,
        )) by {
            if j > 0 {
                assert(l.drop_first()[j - 1] == l[j]);
            }
        }
        if pos < l.len() {
            assert(l.drop_first()[pos - 1] == l[pos]);
        }
    }
}

/// The per-key list after admitting a record: an existing record of the
/// same provider is replaced in place; otherwise the record is inserted at
/// its distance rank, evicting the farthest entry when the list overflows,
/// or appended while there is room, or silently dropped.
pub open spec fn updated_list(
    k: Seq<u8>,
    l: Seq<ProviderRecordV>,
    r: ProviderRecordV,
    cap: usize,
) -> Seq<ProviderRecordV> {
    if has_provider(l, r.provider) {
        l.update(provider_index(l, r.provider), r)
    } else {
        let pos = insert_pos(k, l, r.provider);
        if pos < l.len() {
            let grown = l.insert(pos, r);
            if grown.len() > cap {
                grown.drop_last()
            } else {
                grown
            }
        } else if l.len() < cap {
            l.push(r)
        } else {
            l
        }
    }
}

/// The table after admitting a provider record for its key.
pub open spec fn add_provider_spec(t: TableV, r: ProviderRecordV, cap: usize) -> TableV {
    if has_table_key(t, r.key) {
        let i = table_key_index(t, r.key);
        t.update(i, (t[i].0, updated_list(t[i].0, t[i].1, r, cap)))
    } else {
        t.push((r.key, updated_list(r.key, Seq::empty(), r, cap)))
    }
}

/// In a well-formed table, a record keyed by `t[ki].0` can only sit in
/// entry `ki`.
proof fn lemma_key_records(t: TableV, cap: usize, ki: int)
    requires
        table_wf(t, cap),
        0 <= ki < t.len(),
    ensures
        forall|i2: int, j2: int|
            0 <= i2 < t.len() && 0 <= j2 < t[i2].1.len() && (#[trigger] t[i2].1[j2]).key
                == t[ki].0 ==> i2 == ki,
{
    assert forall|i2: int, j2: int|
        0 <= i2 < t.len() && 0 <= j2 < t[i2].1.len() && (#[trigger] t[i2].1[j2]).key == t[ki].0
            implies i2 == ki by {
        assert(list_wf(t[i2].0, t[i2].1, cap));
        assert(t[i2].1[j2].key == t[i2].0);
        if i2 != ki {
            assert(t[i2].0 != t[ki].0);
            assert(false);
        }
    }
}

/// Admitting a record for an untracked key, with room for one provider,
/// appends a fresh one-record list.
proof fn lemma_add_new_key(
    local: Seq<u8>,
    t0: TableV,
    p0: Seq<ProviderRecordV>,
    p1: Seq<ProviderRecordV>,
    r: ProviderRecordV,
    cap: usize,
    maxk: usize,
)
    requires
        table_wf(t0, cap),
        t0.len() < maxk,
        provided_sync(local, t0, p0),
        !has_table_key(t0, r.key),
        cap > 0,
        p1 == if r.provider == local {
            p0.push(r)
        } else {
            p0
        },
    ensures
        table_wf(t0.push((r.key, seq![r])), cap),
        t0.push((r.key, seq![r])).len() <= maxk,
        provided_sync(local, t0.push((r.key, seq![r])), p1),
        add_provider_spec(t0, r, cap) == t0.push((r.key, seq![r])),
{
    let t1 = t0.push((r.key, seq![r]));
    let ki = t0.len() as int;
    assert(forall|j: int| 0 <= j < ki ==> t1[j] == t0[j]);
    assert(t1[ki] == (r.key, seq![r]));
    assert forall|i: int, j: int| 0 <= i < j < t1.len() implies t1[i].0 != t1[j].0 by {
        if j == ki {
            if t1[i].0 == r.key {
                assert(has_table_key(t0, r.key));
            }
        }
    }
    assert(seq![r][0] == r);
    assert(list_wf(r.key, seq![r], cap));
    assert forall|i: int| 0 <= i < t1.len() implies list_wf((#[trigger] t1[i]).0, t1[i].1, cap) by {
        if i < ki {
            assert(t1[i] == t0[i]);
        }
    }
    // no record anywhere in t0 is keyed by r.key
    assert forall|i2: int, j2: int|
        0 <= i2 < t0.len() && 0 <= j2 < t0[i2].1.len() implies (#[trigger] t0[i2].1[j2]).key
            != r.key by {
        assert(list_wf(t0[i2].0, t0[i2].1, cap));
        assert(t0[i2].1[j2].key == t0[i2].0);
        if t0[i2].0 == r.key {
            assert(has_table_key(t0, r.key));
        }
    }
    if r.provider == local {
        assert(forall|n: int| 0 <= n < p0.len() ==> p1[n] == p0[n]);
        assert(p1[p0.len() as int] == r);
        assert forall|n: int| 0 <= n < p1.len() implies (#[trigger] p1[n]).provider == local
            && in_table(t1, p1[n]) by {
            if n < p0.len() {
                assert(in_table(t0, p0[n]));
                let (a, b) = choose|a: int, b: int|
                    0 <= a < t0.len() && 0 <= b < t0[a].1.len() && t0[a].1[b] == p0[n];
                assert(t1[a] == t0[a]);
                assert(t1[a].1[b] == p0[n]);
            } else {
                assert(p1[n] == r);
                assert(t1[ki].1[0] == r);
            }
        }
        assert forall|i: int, j: int|
            0 <= i < t1.len() && 0 <= j < t1[i].1.len() && (#[trigger] t1[i].1[j]).provider
                == local implies p1.contains(t1[i].1[j]) by {
            if i == ki {
                assert(t1[i].1[j] == r);
                assert(p1[p0.len() as int] == r);
            } else {
                assert(t1[i] == t0[i]);
                assert(p0.contains(t0[i].1[j]));
                let n = choose|n: int| 0 <= n < p0.len() && p0[n] == t0[i].1[j];
                assert(p1[n] == t0[i].1[j]);
            }
        }
        assert forall|m2: int, n2: int| 0 <= m2 < n2 < p1.len() implies !(p1[m2].key == p1[n2].key
            && p1[m2].provider == p1[n2].provider) by {
            if n2 == p0.len() {
                if p1[m2].key == r.key {
                    assert(in_table(t0, p0[m2]));
                    let (a, b) = choose|a: int, b: int|
                        0 <= a < t0.len() && 0 <= b < t0[a].1.len() && t0[a].1[b] == p0[m2];
                    assert(t0[a].1[b].key == r.key);
                    assert(false);
                }
            }
        }
    } else {
        assert forall|n: int| 0 <= n < p1.len() implies (#[trigger] p1[n]).provider == local
            && in_table(t1, p1[n]) by {
            assert(in_table(t0, p0[n]));
            let (a, b) = choose|a: int, b: int|
                0 <= a < t0.len() && 0 <= b < t0[a].1.len() && t0[a].1[b] == p0[n];
            assert(t1[a] == t0[a]);
            assert(t1[a].1[b] == p0[n]);
        }
        assert forall|i: int, j: int|
            0 <= i < t1.len() && 0 <= j < t1[i].1.len() && (#[trigger] t1[i].1[j]).provider
                == local implies p1.contains(t1[i].1[j]) by {
            if i == ki {
                assert(t1[i].1[j] == r);
                assert(false);
            } else {
                assert(t1[i] == t0[i]);
                assert(p0.contains(t0[i].1[j]));
            }
        }
    }
    // the spec takes the same branch
    assert(!has_provider(Seq::<ProviderRecordV>::empty(), r.provider)) by {
        if has_provider(Seq::<ProviderRecordV>::empty(), r.provider) {
            let j = choose|j: int|
                0 <= j < Seq::<ProviderRecordV>::empty().len()
                    && Seq::<ProviderRecordV>::empty()[j].provider == r.provider;
        }
    }
    assert(insert_pos(r.key, Seq::<ProviderRecordV>::empty(), r.provider) == 0);
    assert(updated_list(r.key, Seq::<ProviderRecordV>::empty(), r, cap) =~= seq![r]);
    assert(add_provider_spec(t0, r, cap) == t1);
}

/// Admitting a record for an untracked key when no providers are kept per
/// key appends an entry with an empty list and changes nothing else.
proof fn lemma_add_new_key_empty(
    local: Seq<u8>,
    t0: TableV,
    p0: Seq<ProviderRecordV>,
    r: ProviderRecordV,
    maxk: usize,
)
    requires
        table_wf(t0, 0),
        t0.len() < maxk,
        provided_sync(local, t0, p0),
        !has_table_key(t0, r.key),
    ensures
        table_wf(t0.push((r.key, Seq::<ProviderRecordV>::empty())), 0),
        t0.push((r.key, Seq::<ProviderRecordV>::empty())).len() <= maxk,
        provided_sync(local, t0.push((r.key, Seq::<ProviderRecordV>::empty())), p0),
        add_provider_spec(t0, r, 0) == t0.push((r.key, Seq::<ProviderRecordV>::empty())),
{
    let t1 = t0.push((r.key, Seq::<ProviderRecordV>::empty()));
    let ki = t0.len() as int;
    assert(forall|j: int| 0 <= j < ki ==> t1[j] == t0[j]);
    assert forall|i: int, j: int| 0 <= i < j < t1.len() implies t1[i].0 != t1[j].0 by {
        if j == ki {
            if t1[i].0 == r.key {
                assert(has_table_key(t0, r.key));
            }
        }
    }
    assert(list_wf(r.key, Seq::<ProviderRecordV>::empty(), 0));
    assert forall|i: int| 0 <= i < t1.len() implies list_wf((#[trigger] t1[i]).0, t1[i].1, 0) by {
        if i < ki {
            assert(t1[i] == t0[i]);
        }
    }
    assert forall|n: int| 0 <= n < p0.len() implies (#[trigger] p0[n]).provider == local
        && in_table(t1, p0[n]) by {
        assert(in_table(t0, p0[n]));
        let (a, b) = choose|a: int, b: int|
            0 <= a < t0.len() && 0 <= b < t0[a].1.len() && t0[a].1[b] == p0[n];
        assert(t1[a] == t0[a]);
        assert(t1[a].1[b] == p0[n]);
    }
    assert forall|i: int, j: int|
        0 <= i < t1.len() && 0 <= j < t1[i].1.len() && (#[trigger] t1[i].1[j]).provider == local
            implies p0.contains(t1[i].1[j]) by {
        assert(i != ki);
        assert(t1[i] == t0[i]);
        assert(p0.contains(t0[i].1[j]));
    }
    assert(!has_provider(Seq::<ProviderRecordV>::empty(), r.provider)) by {
        if has_provider(Seq::<ProviderRecordV>::empty(), r.provider) {
            let j = choose|j: int|
                0 <= j < Seq::<ProviderRecordV>::empty().len()
                    && Seq::<ProviderRecordV>::empty()[j].provider == r.provider;
        }
    }
    assert(updated_list(r.key, Seq::<ProviderRecordV>::empty(), r, 0)
        == Seq::<ProviderRecordV>::empty());
    assert(add_provider_spec(t0, r, 0) == t1);
}

} // verus!

verus! {

/// Replacing an existing provider's record in place keeps the table well
/// formed and the provided set synchronized; no re-ranking happens.
proof fn lemma_add_update_in_place(
    local: Seq<u8>,
    t0: TableV,
    p0: Seq<ProviderRecordV>,
    pmid: Seq<ProviderRecordV>,
    p2: Seq<ProviderRecordV>,
    ki: int,
    pi: int,
    r: ProviderRecordV,
    cap: usize,
    maxk: usize,
)
    requires
        table_wf(t0, cap),
        t0.len() <= maxk,
        provided_sync(local, t0, p0),
        0 <= ki < t0.len(),
        t0[ki].0 == r.key,
        0 <= pi < t0[ki].1.len(),
        t0[ki].1[pi].provider == r.provider,
        r.provider == local ==> {
            &&& (!has_pair(p0, r.key, r.provider) ==> pmid == p0)
            &&& (has_pair(p0, r.key, r.provider) ==> exists|m: int|
                0 <= m < p0.len() && (#[trigger] p0[m]).key == r.key && p0[m].provider
                    == r.provider && pmid == p0.remove(m))
            &&& p2 == pmid.push(r)
        },
        r.provider != local ==> p2 == p0,
    ensures
        table_wf(t0.update(ki, (r.key, t0[ki].1.update(pi, r))), cap),
        t0.update(ki, (r.key, t0[ki].1.update(pi, r))).len() <= maxk,
        provided_sync(local, t0.update(ki, (r.key, t0[ki].1.update(pi, r))), p2),
        add_provider_spec(t0, r, cap) == t0.update(ki, (r.key, t0[ki].1.update(pi, r))),
{
    let l0 = t0[ki].1;
    let l2 = l0.update(pi, r);
    let t1 = t0.update(ki, (r.key, l2));
    assert(l0[pi].key == r.key);
    lemma_key_records(t0, cap, ki);
    // the spec takes the same branch
    assert(has_table_key(t0, r.key));
    let w = table_key_index(t0, r.key);
    assert(t0[w].0 == r.key);
    assert(w == ki);
    assert(has_provider(l0, r.provider));
    let w2 = provider_index(l0, r.provider);
    assert(l0[w2].provider == r.provider);
    assert forall|j: int| 0 <= j < l0.len() && (#[trigger] l0[j]).provider == r.provider
        implies j == pi by {
        if j != pi {
            assert(l0[j].provider != l0[pi].provider);
        }
    }
    assert(w2 == pi);
    assert(add_provider_spec(t0, r, cap) == t1);
    // the updated list is well formed: distances are unchanged
    assert(list_wf(r.key, l0, cap));
    assert forall|a: int, b: int| 0 <= a < b < l2.len() implies distance_of(
        r.key,
        l2[a].provider,
    ) <= distance_of(r.key, l2[b].provider) && l2[a].provider != l2[b].provider by {
        assert(l2[a].provider == l0[a].provider);
        assert(l2[b].provider == l0[b].provider);
    }
    assert(list_wf(r.key, l2, cap));
    assert forall|i: int| 0 <= i < t1.len() implies list_wf((#[trigger] t1[i]).0, t1[i].1, cap) by {
        if i != ki {
            assert(t1[i] == t0[i]);
        }
    }
    assert forall|i: int, j: int| 0 <= i < j < t1.len() implies t1[i].0 != t1[j].0 by {
        assert(t1[i].0 == t0[i].0 && t1[j].0 == t0[j].0);
    }
    if r.provider == local {
        assert(l0[pi].provider == local);
        assert(p0.contains(l0[pi]));
        let m0 = choose|m: int| 0 <= m < p0.len() && p0[m] == l0[pi];
        assert(p0[m0].key == r.key && p0[m0].provider == r.provider);
        assert(has_pair(p0, r.key, r.provider));
        let m = choose|m: int|
            0 <= m < p0.len() && (#[trigger] p0[m]).key == r.key && p0[m].provider == r.provider
                && pmid == p0.remove(m);
        assert(in_table(t0, p0[m]));
        let (i2, j2) = choose|i2: int, j2: int|
            0 <= i2 < t0.len() && 0 <= j2 < t0[i2].1.len() && t0[i2].1[j2] == p0[m];
        assert(i2 == ki);
        assert(l0[j2].provider == r.provider);
        assert(j2 == pi);
        assert(p0[m] == l0[pi]);
        assert(forall|n: int| 0 <= n < m ==> pmid[n] == p0[n]);
        assert(forall|n: int| m <= n < pmid.len() ==> pmid[n] == p0[n + 1]);
        assert(forall|n: int| 0 <= n < pmid.len() ==> p2[n] == pmid[n]);
        assert(p2[pmid.len() as int] == r);
        assert forall|n: int| 0 <= n < p2.len() implies (#[trigger] p2[n]).provider == local
            && in_table(t1, p2[n]) by {
            if n == pmid.len() {
                assert(p2[n] == r);
                assert(t1[ki].1[pi] == r);
            } else {
                let n0 = if n < m { n } else { n + 1 };
                assert(p2[n] == p0[n0]);
                assert(in_table(t0, p0[n0]));
                let (a, b) = choose|a: int, b: int|
                    0 <= a < t0.len() && 0 <= b < t0[a].1.len() && t0[a].1[b] == p0[n0];
                if a == ki && b == pi {
                    assert(p0[n0].key == p0[m].key && p0[n0].provider == p0[m].provider);
                    assert(n0 == m);
                    assert(false);
                }
                if a == ki {
                    assert(l2[b] == l0[b]);
                    assert(t1[ki].1[b] == p0[n0]);
                } else {
                    assert(t1[a] == t0[a]);
                    assert(t1[a].1[b] == p0[n0]);
                }
            }
        }
        assert forall|i: int, j: int|
            0 <= i < t1.len() && 0 <= j < t1[i].1.len() && (#[trigger] t1[i].1[j]).provider
                == local implies p2.contains(t1[i].1[j]) by {
            let rec = t1[i].1[j];
            if i == ki && j == pi {
                assert(rec == r);
                assert(p2[pmid.len() as int] == r);
            } else if i == ki {
                assert(rec == l0[j]);
                assert(p0.contains(rec));
                let n = choose|n: int| 0 <= n < p0.len() && p0[n] == rec;
                if n == m {
                    assert(l0[j].provider == l0[pi].provider);
                    assert(false);
                }
                let n1 = if n < m { n } else { n - 1 };
                assert(p2[n1] == p0[n]);
                assert(p2.contains(rec));
            } else {
                assert(t1[i] == t0[i]);
                assert(p0.contains(rec));
                let n = choose|n: int| 0 <= n < p0.len() && p0[n] == rec;
                if n == m {
                    assert(rec.key == r.key);
                    assert(i == ki);
                    assert(false);
                }
                let n1 = if n < m { n } else { n - 1 };
                assert(p2[n1] == p0[n]);
                assert(p2.contains(rec));
            }
        }
        assert forall|m2: int, n2: int| 0 <= m2 < n2 < p2.len() implies !(p2[m2].key == p2[n2].key
            && p2[m2].provider == p2[n2].provider) by {
            if n2 == pmid.len() {
                // an earlier entry with r's pair would be the removed one
                let m0b = if m2 < m { m2 } else { m2 + 1 };
                assert(p2[m2] == p0[m0b]);
                if p0[m0b].key == r.key && p0[m0b].provider == r.provider {
                    assert(m0b == m);
                    assert(false);
                }
            } else {
                let m0b = if m2 < m { m2 } else { m2 + 1 };
                let n0b = if n2 < m { n2 } else { n2 + 1 };
                assert(p2[m2] == p0[m0b] && p2[n2] == p0[n0b]);
            }
        }
    } else {
        assert forall|n: int| 0 <= n < p2.len() implies (#[trigger] p2[n]).provider == local
            && in_table(t1, p2[n]) by {
            assert(in_table(t0, p0[n]));
            let (a, b) = choose|a: int, b: int|
                0 <= a < t0.len() && 0 <= b < t0[a].1.len() && t0[a].1[b] == p0[n];
            if a == ki && b == pi {
                assert(p0[n].provider == r.provider);
                assert(false);
            }
            if a == ki {
                assert(l2[b] == l0[b]);
                assert(t1[ki].1[b] == p0[n]);
            } else {
                assert(t1[a] == t0[a]);
                assert(t1[a].1[b] == p0[n]);
            }
        }
        assert forall|i: int, j: int|
            0 <= i < t1.len() && 0 <= j < t1[i].1.len() && (#[trigger] t1[i].1[j]).provider
                == local implies p2.contains(t1[i].1[j]) by {
            let rec = t1[i].1[j];
            if i == ki && j == pi {
                assert(rec == r);
                assert(false);
            } else if i == ki {
                assert(rec == l0[j]);
                assert(p0.contains(rec));
            } else {
                assert(t1[i] == t0[i]);
                assert(p0.contains(rec));
            }
        }
    }
}

} // verus!

verus! {

/// Inserting a record at its distance rank keeps the list sorted.
proof fn lemma_sorted_insert(k: Seq<u8>, l: Seq<ProviderRecordV>, r: ProviderRecordV, pos: int)
    requires
        list_sorted(k, l),
        0 <= pos <= l.len(),
        forall|j: int|
            0 <= j < pos ==> distance_of(k, (#[trigger] l[j]).provider) <= distance_of(
                k,
                r.provider,
            ),
        pos < l.len() ==> distance_of(k, r.provider) < distance_of(k, l[pos].provider),
    ensures
        list_sorted(k, l.insert(pos, r)),
{
    let g = l.insert(pos, r);
    l.insert_ensures(pos, r);
    assert forall|a: int, b: int| 0 <= a < b < g.len() implies distance_of(k, g[a].provider)
        <= distance_of(k, g[b].provider) by {
        if a < pos && b < pos {
            assert(g[a] == l[a] && g[b] == l[b]);
        } else if a < pos && b == pos {
            assert(g[a] == l[a] && g[b] == r);
        } else if a < pos && b > pos {
            assert(g[a] == l[a] && g[b] == l[b - 1]);
            if b - 1 > a {
            } else {
                assert(b - 1 == a);
                assert(a < pos <= b - 1);
                assert(false);
            }
        } else if a == pos && b > pos {
            assert(g[a] == r && g[b] == l[b - 1]);
            assert(pos <= b - 1 < l.len());
            if pos == b - 1 {
            } else {
                assert(distance_of(k, l[pos].provider) <= distance_of(k, l[b - 1].provider));
            }
        } else {
            assert(a > pos && b > pos);
            assert(g[a] == l[a - 1] && g[b] == l[b - 1]);
        }
    }
}

/// Inserting a new provider into a list with room keeps the table well
/// formed and the provided set synchronized.
proof fn lemma_add_insert_no_evict(
    local: Seq<u8>,
    t0: TableV,
    p0: Seq<ProviderRecordV>,
    p2: Seq<ProviderRecordV>,
    ki: int,
    pos: int,
    r: ProviderRecordV,
    cap: usize,
    maxk: usize,
)
    requires
        table_wf(t0, cap),
        t0.len() <= maxk,
        provided_sync(local, t0, p0),
        0 <= ki < t0.len(),
        t0[ki].0 == r.key,
        !has_provider(t0[ki].1, r.provider),
        t0[ki].1.len() < cap,
        pos == insert_pos(r.key, t0[ki].1, r.provider),
        p2 == if r.provider == local {
            p0.push(r)
        } else {
            p0
        },
    ensures
        table_wf(t0.update(ki, (r.key, t0[ki].1.insert(pos, r))), cap),
        t0.update(ki, (r.key, t0[ki].1.insert(pos, r))).len() <= maxk,
        provided_sync(local, t0.update(ki, (r.key, t0[ki].1.insert(pos, r))), p2),
        add_provider_spec(t0, r, cap) == t0.update(ki, (r.key, t0[ki].1.insert(pos, r))),
{
    let l0 = t0[ki].1;
    let l2 = l0.insert(pos, r);
    let t1 = t0.update(ki, (r.key, l2));
    lemma_insert_pos_char(r.key, l0, r.provider);
    l0.insert_ensures(pos, r);
    lemma_key_records(t0, cap, ki);
    assert(list_wf(r.key, l0, cap));
    // the spec takes the same branch
    assert(has_table_key(t0, r.key));
    let w = table_key_index(t0, r.key);
    assert(t0[w].0 == r.key);
    assert(w == ki);
    assert(updated_list(r.key, l0, r, cap) == l2) by {
        if pos < l0.len() {
            assert(l2.len() == l0.len() + 1 <= cap);
        }
    }
    assert(add_provider_spec(t0, r, cap) == t1);
    // the grown list is well formed
    assert forall|j: int| 0 <= j < pos implies distance_of(
        r.key,
        (#[trigger] l0[j]).provider,
    ) <= distance_of(r.key, r.provider) by {
        assert(!(distance_of(r.key, r.provider) < distance_of(r.key, l0[j].provider)));
    }
    lemma_sorted_insert(r.key, l0, r, pos);
    assert forall|a: int, b: int| 0 <= a < b < l2.len() implies l2[a].provider
        != l2[b].provider by {
        let a0 = if a < pos { a } else { a - 1 };
        let b0 = if b < pos { b } else { b - 1 };
        if a == pos {
            assert(l2[b] == l0[b0]);
            if l0[b0].provider == r.provider {
                assert(has_provider(l0, r.provider));
            }
        } else if b == pos {
            assert(l2[a] == l0[a0]);
            if l0[a0].provider == r.provider {
                assert(has_provider(l0, r.provider));
            }
        } else {
            assert(l2[a] == l0[a0] && l2[b] == l0[b0]);
        }
    }
    assert forall|a: int| 0 <= a < l2.len() implies (#[trigger] l2[a]).key == r.key by {
        if a != pos {
            let a0 = if a < pos { a } else { a - 1 };
            assert(l2[a] == l0[a0]);
        }
    }
    assert(list_wf(r.key, l2, cap));
    assert forall|i: int| 0 <= i < t1.len() implies list_wf((#[trigger] t1[i]).0, t1[i].1, cap) by {
        if i != ki {
            assert(t1[i] == t0[i]);
        }
    }
    assert forall|i: int, j: int| 0 <= i < j < t1.len() implies t1[i].0 != t1[j].0 by {
        assert(t1[i].0 == t0[i].0 && t1[j].0 == t0[j].0);
    }
    // old records keep a spot in the grown list
    assert forall|b: int| 0 <= b < l0.len() implies exists|b2: int|
        0 <= b2 < l2.len() && l2[b2] == (#[trigger] l0[b]) by {
        let b2 = if b < pos { b } else { b + 1 };
        assert(l2[b2] == l0[b]);
    }
    if r.provider == local {
        assert(forall|n: int| 0 <= n < p0.len() ==> p2[n] == p0[n]);
        assert(p2[p0.len() as int] == r);
        assert forall|n: int| 0 <= n < p2.len() implies (#[trigger] p2[n]).provider == local
            && in_table(t1, p2[n]) by {
            if n < p0.len() {
                assert(in_table(t0, p0[n]));
                let (a, b) = choose|a: int, b: int|
                    0 <= a < t0.len() && 0 <= b < t0[a].1.len() && t0[a].1[b] == p0[n];
                if a == ki {
                    let b2 = choose|b2: int| 0 <= b2 < l2.len() && l2[b2] == l0[b];
                    assert(t1[ki].1[b2] == p0[n]);
                } else {
                    assert(t1[a] == t0[a]);
                    assert(t1[a].1[b] == p0[n]);
                }
            } else {
                assert(p2[n] == r);
                assert(t1[ki].1[pos] == r);
            }
        }
        assert forall|i: int, j: int|
            0 <= i < t1.len() && 0 <= j < t1[i].1.len() && (#[trigger] t1[i].1[j]).provider
                == local implies p2.contains(t1[i].1[j]) by {
            let rec = t1[i].1[j];
            if i == ki {
                if j == pos {
                    assert(rec == r);
                    assert(p2[p0.len() as int] == r);
                } else {
                    let j0 = if j < pos { j } else { j - 1 };
                    assert(rec == l0[j0]);
                    assert(p0.contains(rec));
                    let n = choose|n: int| 0 <= n < p0.len() && p0[n] == rec;
                    assert(p2[n] == rec);
                }
            } else {
                assert(t1[i] == t0[i]);
                assert(p0.contains(rec));
                let n = choose|n: int| 0 <= n < p0.len() && p0[n] == rec;
                assert(p2[n] == rec);
            }
        }
        assert forall|m2: int, n2: int| 0 <= m2 < n2 < p2.len() implies !(p2[m2].key == p2[n2].key
            && p2[m2].provider == p2[n2].provider) by {
            if n2 == p0.len() {
                if p2[m2].key == r.key && p2[m2].provider == r.provider {
                    assert(in_table(t0, p0[m2]));
                    let (a, b) = choose|a: int, b: int|
                        0 <= a < t0.len() && 0 <= b < t0[a].1.len() && t0[a].1[b] == p0[m2];
                    assert(t0[a].1[b].key == r.key);
                    assert(a == ki);
                    assert(l0[b].provider == r.provider);
                    assert(has_provider(l0, r.provider));
                    assert(false);
                }
            }
        }
    } else {
        assert forall|n: int| 0 <= n < p2.len() implies (#[trigger] p2[n]).provider == local
            && in_table(t1, p2[n]) by {
            assert(in_table(t0, p0[n]));
            let (a, b) = choose|a: int, b: int|
                0 <= a < t0.len() && 0 <= b < t0[a].1.len() && t0[a].1[b] == p0[n];
            if a == ki {
                let b2 = choose|b2: int| 0 <= b2 < l2.len() && l2[b2] == l0[b];
                assert(t1[ki].1[b2] == p0[n]);
            } else {
                assert(t1[a] == t0[a]);
                assert(t1[a].1[b] == p0[n]);
            }
        }
        assert forall|i: int, j: int|
            0 <= i < t1.len() && 0 <= j < t1[i].1.len() && (#[trigger] t1[i].1[j]).provider
                == local implies p2.contains(t1[i].1[j]) by {
            let rec = t1[i].1[j];
            if i == ki {
                if j == pos {
                    assert(rec == r);
                    assert(false);
                } else {
                    let j0 = if j < pos { j } else { j - 1 };
                    assert(rec == l0[j0]);
                    assert(p0.contains(rec));
                }
            } else {
                assert(t1[i] == t0[i]);
                assert(p0.contains(rec));
            }
        }
    }
}

} // verus!

verus! {

/// Inserting a strictly closer provider into a full list evicts the
/// farthest entry; the table stays well formed and the provided set
/// synchronized.
#[verifier::rlimit(100)]
proof fn lemma_add_insert_evict(
    local: Seq<u8>,
    t0: TableV,
    p0: Seq<ProviderRecordV>,
    pmid: Seq<ProviderRecordV>,
    p2: Seq<ProviderRecordV>,
    ki: int,
    pos: int,
    r: ProviderRecordV,
    cap: usize,
    maxk: usize,
)
    requires
        table_wf(t0, cap),
        t0.len() <= maxk,
        provided_sync(local, t0, p0),
        0 <= ki < t0.len(),
        t0[ki].0 == r.key,
        !has_provider(t0[ki].1, r.provider),
        t0[ki].1.len() == cap,
        pos == insert_pos(r.key, t0[ki].1, r.provider),
        0 <= pos < t0[ki].1.len(),
        pmid == if r.provider == local {
            p0.push(r)
        } else {
            p0
        },
        !has_pair(pmid, r.key, t0[ki].1.last().provider) ==> p2 == pmid,
        has_pair(pmid, r.key, t0[ki].1.last().provider) ==> exists|m: int|
            0 <= m < pmid.len() && (#[trigger] pmid[m]).key == r.key && pmid[m].provider
                == t0[ki].1.last().provider && p2 == pmid.remove(m),
    ensures
        table_wf(t0.update(ki, (r.key, t0[ki].1.insert(pos, r).drop_last())), cap),
        t0.update(ki, (r.key, t0[ki].1.insert(pos, r).drop_last())).len() <= maxk,
        provided_sync(local, t0.update(ki, (r.key, t0[ki].1.insert(pos, r).drop_last())), p2),
        add_provider_spec(t0, r, cap) == t0.update(
            ki,
            (r.key, t0[ki].1.insert(pos, r).drop_last()),
        ),
{
    let l0 = t0[ki].1;
    let g = l0.insert(pos, r);
    let l2 = g.drop_last();
    let t1 = t0.update(ki, (r.key, l2));
    let ev = l0.last();
    lemma_insert_pos_char(r.key, l0, r.provider);
    l0.insert_ensures(pos, r);
    lemma_key_records(t0, cap, ki);
    assert(list_wf(r.key, l0, cap));
    assert(g.len() == cap + 1);
    assert(g[cap as int] == l0[cap - 1]);
    assert(l2.len() == cap);
    assert(forall|x: int| 0 <= x < cap ==> l2[x] == g[x]);
    assert(ev == l0[cap - 1]);
    assert(ev.key == r.key);
    assert(r.provider != ev.provider) by {
        if r.provider == ev.provider {
            assert(has_provider(l0, r.provider));
        }
    }
    // the spec takes the same branch
    assert(has_table_key(t0, r.key));
    let w = table_key_index(t0, r.key);
    assert(t0[w].0 == r.key);
    assert(w == ki);
    assert(updated_list(r.key, l0, r, cap) == l2);
    assert(add_provider_spec(t0, r, cap) == t1);
    // the clipped list is well formed
    assert forall|j: int| 0 <= j < pos implies distance_of(
        r.key,
        (#[trigger] l0[j]).provider,
    ) <= distance_of(r.key, r.provider) by {
        assert(!(distance_of(r.key, r.provider) < distance_of(r.key, l0[j].provider)));
    }
    lemma_sorted_insert(r.key, l0, r, pos);
    assert forall|a: int, b: int| 0 <= a < b < g.len() implies g[a].provider != g[b].provider by {
        let a0 = if a < pos { a } else { a - 1 };
        let b0 = if b < pos { b } else { b - 1 };
        if a == pos {
            assert(g[b] == l0[b0]);
            if l0[b0].provider == r.provider {
                assert(has_provider(l0, r.provider));
            }
        } else if b == pos {
            assert(g[a] == l0[a0]);
            if l0[a0].provider == r.provider {
                assert(has_provider(l0, r.provider));
            }
        } else {
            assert(g[a] == l0[a0] && g[b] == l0[b0]);
        }
    }
    assert forall|a: int| 0 <= a < g.len() implies (#[trigger] g[a]).key == r.key by {
        if a != pos {
            let a0 = if a < pos { a } else { a - 1 };
            assert(g[a] == l0[a0]);
        }
    }
    assert(list_sorted(r.key, l2));
    assert(list_wf(r.key, l2, cap));
    assert forall|i: int| 0 <= i < t1.len() implies list_wf((#[trigger] t1[i]).0, t1[i].1, cap) by {
        if i != ki {
            assert(t1[i] == t0[i]);
        }
    }
    assert forall|i: int, j: int| 0 <= i < j < t1.len() implies t1[i].0 != t1[j].0 by {
        assert(t1[i].0 == t0[i].0 && t1[j].0 == t0[j].0);
    }
    // the surviving old records keep a spot; the evicted one is gone
    assert forall|b: int| 0 <= b < cap - 1 implies exists|b2: int|
        0 <= b2 < l2.len() && l2[b2] == (#[trigger] l0[b]) by {
        let b2 = if b < pos { b } else { b + 1 };
        assert(l2[b2] == l0[b]);
    }
    assert(l2[pos] == r);
    if ev.provider == local {
        // the new record cannot itself be local here
        assert(r.provider != local);
        assert(pmid == p0);
        assert(p0.contains(ev));
        let me = choose|m: int| 0 <= m < p0.len() && p0[m] == ev;
        assert(has_pair(pmid, r.key, ev.provider));
        let m = choose|m: int|
            0 <= m < pmid.len() && (#[trigger] pmid[m]).key == r.key && pmid[m].provider
                == ev.provider && p2 == pmid.remove(m);
        assert(in_table(t0, p0[m]));
        let (i2, j2) = choose|i2: int, j2: int|
            0 <= i2 < t0.len() && 0 <= j2 < t0[i2].1.len() && t0[i2].1[j2] == p0[m];
        assert(i2 == ki);
        assert forall|j: int| 0 <= j < l0.len() && (#[trigger] l0[j]).provider == ev.provider
            implies j == cap - 1 by {
            if j != cap - 1 {
                assert(l0[j].provider != l0[cap - 1].provider);
            }
        }
        assert(j2 == cap - 1);
        assert(p0[m] == ev);
        assert(forall|n: int| 0 <= n < m ==> p2[n] == p0[n]);
        assert(forall|n: int| m <= n < p2.len() ==> p2[n] == p0[n + 1]);
        assert forall|n: int| 0 <= n < p2.len() implies (#[trigger] p2[n]).provider == local
            && in_table(t1, p2[n]) by {
            let n0 = if n < m { n } else { n + 1 };
            assert(p2[n] == p0[n0]);
            assert(in_table(t0, p0[n0]));
            let (a, b) = choose|a: int, b: int|
                0 <= a < t0.len() && 0 <= b < t0[a].1.len() && t0[a].1[b] == p0[n0];
            if a == ki {
                if b == cap - 1 {
                    assert(p0[n0] == ev);
                    assert(p0[n0].key == p0[m].key && p0[n0].provider == p0[m].provider);
                    assert(n0 == m);
                    assert(false);
                }
                let b2 = choose|b2: int| 0 <= b2 < l2.len() && l2[b2] == l0[b];
                assert(t1[ki].1[b2] == p0[n0]);
            } else {
                assert(t1[a] == t0[a]);
                assert(t1[a].1[b] == p0[n0]);
            }
        }
        assert forall|i: int, j: int|
            0 <= i < t1.len() && 0 <= j < t1[i].1.len() && (#[trigger] t1[i].1[j]).provider
                == local implies p2.contains(t1[i].1[j]) by {
            let rec = t1[i].1[j];
            if i == ki {
                if j == pos {
                    assert(rec == r);
                    assert(false);
                }
                let j0 = if j < pos { j } else { j - 1 };
                assert(rec == l0[j0]);
                assert(j0 < cap - 1 || j0 == cap - 1);
                if j0 == cap - 1 {
                    assert(j == cap);
                    assert(false);
                }
                assert(p0.contains(rec));
                let n = choose|n: int| 0 <= n < p0.len() && p0[n] == rec;
                if n == m {
                    assert(l0[j0].provider == ev.provider);
                    assert(j0 == cap - 1);
                    assert(false);
                }
                let n1 = if n < m { n } else { n - 1 };
                assert(p2[n1] == p0[n]);
                assert(p2.contains(rec));
            } else {
                assert(t1[i] == t0[i]);
                assert(p0.contains(rec));
                let n = choose|n: int| 0 <= n < p0.len() && p0[n] == rec;
                if n == m {
                    assert(rec.key == r.key);
                    assert(i == ki);
                    assert(false);
                }
                let n1 = if n < m { n } else { n - 1 };
                assert(p2[n1] == p0[n]);
                assert(p2.contains(rec));
            }
        }
        assert forall|m2: int, n2: int| 0 <= m2 < n2 < p2.len() implies !(p2[m2].key == p2[n2].key
            && p2[m2].provider == p2[n2].provider) by {
            let m0 = if m2 < m { m2 } else { m2 + 1 };
            let n0 = if n2 < m { n2 } else { n2 + 1 };
            assert(p2[m2] == p0[m0] && p2[n2] == p0[n0]);
        }
    } else {
        // the evicted record was never in the provided set
        assert(!has_pair(pmid, r.key, ev.provider)) by {
            if has_pair(pmid, r.key, ev.provider) {
                let n = choose|n: int|
                    0 <= n < pmid.len() && pmid[n].key == r.key && pmid[n].provider == ev.provider;
                if r.provider == local {
                    if n < p0.len() {
                        assert(p0[n].provider == local);
                    } else {
                        assert(pmid[n] == r);
                    }
                } else {
                    assert(p0[n].provider == local);
                }
            }
        }
        assert(p2 == pmid);
        if r.provider == local {
            assert(forall|n: int| 0 <= n < p0.len() ==> p2[n] == p0[n]);
            assert(p2[p0.len() as int] == r);
            assert forall|n: int| 0 <= n < p2.len() implies (#[trigger] p2[n]).provider == local
                && in_table(t1, p2[n]) by {
                if n < p0.len() {
                    assert(in_table(t0, p0[n]));
                    let (a, b) = choose|a: int, b: int|
                        0 <= a < t0.len() && 0 <= b < t0[a].1.len() && t0[a].1[b] == p0[n];
                    if a == ki {
                        if b == cap - 1 {
                            assert(p0[n] == ev);
                            assert(ev.provider == local);
                            assert(false);
                        }
                        let b2 = choose|b2: int| 0 <= b2 < l2.len() && l2[b2] == l0[b];
                        assert(t1[ki].1[b2] == p0[n]);
                    } else {
                        assert(t1[a] == t0[a]);
                        assert(t1[a].1[b] == p0[n]);
                    }
                } else {
                    assert(p2[n] == r);
                    assert(t1[ki].1[pos] == r);
                }
            }
            assert forall|i: int, j: int|
                0 <= i < t1.len() && 0 <= j < t1[i].1.len() && (#[trigger] t1[i].1[j]).provider
                    == local implies p2.contains(t1[i].1[j]) by {
                let rec = t1[i].1[j];
                if i == ki {
                    if j == pos {
                        assert(rec == r);
                        assert(p2[p0.len() as int] == r);
                    } else {
                        let j0 = if j < pos { j } else { j - 1 };
                        assert(rec == l0[j0]);
                        assert(j0 != cap - 1);
                        assert(p0.contains(rec));
                        let n = choose|n: int| 0 <= n < p0.len() && p0[n] == rec;
                        assert(p2[n] == rec);
                    }
                } else {
                    assert(t1[i] == t0[i]);
                    assert(p0.contains(rec));
                    let n = choose|n: int| 0 <= n < p0.len() && p0[n] == rec;
                    assert(p2[n] == rec);
                }
            }
            assert forall|m2: int, n2: int| 0 <= m2 < n2 < p2.len() implies !(p2[m2].key
                == p2[n2].key && p2[m2].provider == p2[n2].provider) by {
                if n2 == p0.len() {
                    if p2[m2].key == r.key && p2[m2].provider == r.provider {
                        assert(in_table(t0, p0[m2]));
                        let (a, b) = choose|a: int, b: int|
                            0 <= a < t0.len() && 0 <= b < t0[a].1.len() && t0[a].1[b] == p0[m2];
                        assert(t0[a].1[b].key == r.key);
                        assert(a == ki);
                        assert(l0[b].provider == r.provider);
                        assert(has_provider(l0, r.provider));
                        assert(false);
                    }
                }
            }
        } else {
            assert(p2 == p0);
            assert forall|n: int| 0 <= n < p2.len() implies (#[trigger] p2[n]).provider == local
                && in_table(t1, p2[n]) by {
                assert(in_table(t0, p0[n]));
                let (a, b) = choose|a: int, b: int|
                    0 <= a < t0.len() && 0 <= b < t0[a].1.len() && t0[a].1[b] == p0[n];
                if a == ki {
                    if b == cap - 1 {
                        assert(p0[n] == ev);
                        assert(false);
                    }
                    let b2 = choose|b2: int| 0 <= b2 < l2.len() && l2[b2] == l0[b];
                    assert(t1[ki].1[b2] == p0[n]);
                } else {
                    assert(t1[a] == t0[a]);
                    assert(t1[a].1[b] == p0[n]);
                }
            }
            assert forall|i: int, j: int|
                0 <= i < t1.len() && 0 <= j < t1[i].1.len() && (#[trigger] t1[i].1[j]).provider
                    == local implies p2.contains(t1[i].1[j]) by {
                let rec = t1[i].1[j];
                if i == ki {
                    if j == pos {
                        assert(rec == r);
                        assert(false);
                    }
                    let j0 = if j < pos { j } else { j - 1 };
                    assert(rec == l0[j0]);
                    assert(j0 != cap - 1);
                    assert(p0.contains(rec));
                } else {
                    assert(t1[i] == t0[i]);
                    assert(p0.contains(rec));
                }
            }
        }
    }
}

} // verus!

verus! {

/// The position a new provider ranks at in the list: the first index held
/// by a strictly farther provider, or the list's length.
fn find_insert_position(key: &Vec<u8>, list: &Vec<ProviderRecord>, provider: &Vec<u8>) -> (r:
    usize)
    ensures
        r == insert_pos(key@, list.deep_view(), provider@),
        r <= list@.len(),
{
    proof {
        lemma_deep_view_pointwise(*list);
        lemma_insert_pos_char(key@, list.deep_view(), provider@);
    }
    let ghost l = list.deep_view();
    let mut i: usize = 0;
    while i < list.len()
        invariant
            0 <= i <= l.len(),
            l == list.deep_view(),
            l.len() == list@.len(),
            forall|j: int| 0 <= j < l.len() ==> l[j] == list@[j].deep_view(),
            forall|j: int|
                0 <= j < i ==> !(distance_of(key@, provider@) < distance_of(
                    key@,
                    (#[trigger] l[j]).provider,
                )),
            0 <= insert_pos(key@, l, provider@) <= l.len(),
            forall|j: int|
                0 <= j < insert_pos(key@, l, provider@) ==> !(distance_of(key@, provider@)
                    < distance_of(key@, (#[trigger] l[j]).provider)),
            insert_pos(key@, l, provider@) < l.len() ==> distance_of(key@, provider@)
                < distance_of(key@, l[insert_pos(key@, l, provider@)].provider),
        decreases l.len() - i,
    {
        if distance_lt(key, provider, &list[i].provider) {
            proof {
                let pos = insert_pos(key@, l, provider@);
                assert(l[i as int].provider == list@[i as int].deep_view().provider);
                if pos < i {
                    assert(!(distance_of(key@, provider@) < distance_of(key@, l[pos].provider)));
                    assert(false);
                }
                if pos > i {
                    assert(!(distance_of(key@, provider@) < distance_of(
                        key@,
                        l[i as int].provider,
                    )));
                    assert(false);
                }
            }
            return i;
        }
        proof {
            assert(l[i as int].provider == list@[i as int].deep_view().provider);
        }
        i += 1;
    }
    proof {
        let pos = insert_pos(key@, l, provider@);
        if pos < l.len() {
            assert(!(distance_of(key@, provider@) < distance_of(key@, l[pos].provider)));
            assert(false);
        }
    }
    i
}

impl<T: Database> Store<T> {
    /// Admits a provider record. An existing record of the same (key,
    /// provider) pair is replaced in place; a new provider is ranked by its
    /// distance to the key, evicting the farthest entry when the per-key
    /// list overflows, or silently dropped when it is the farthest itself
    /// and the list is full. The only error is `MaxProvidedKeys`, for a
    /// brand-new key once the table already tracks the configured number of
    /// distinct keys.
    pub fn add_provider(&mut self, record: ProviderRecord) -> (r: Result<(), StoreError>)
        requires
            old(self).wf(),
        ensures
            final (self).wf(),
            final (self).local() == old(self).local(),
            final (self).cfg() == old(self).cfg(),
            final (self).records_view() == old(self).records_view(),
            r is Err <==> !has_table_key(old(self).table(), record@.key) && old(
                self,
            ).table().len() == old(self).cfg().max_provided_keys,
            r matches Err(e) ==> e == StoreError::MaxProvidedKeys && final (self).table() == old(
                self,
            ).table() && final (self).provided_view() == old(self).provided_view(),
            r is Ok ==> final (self).table() == add_provider_spec(
                old(self).table(),
                record@,
                old(self).cfg().max_providers_per_key,
            ),
    {
        let ghost t0 = self.table();
        let ghost p0 = self.provided_view();
        let ghost local = self.local();
        let ghost cap = self.config.max_providers_per_key;
        proof {
            lemma_deep_view_pointwise(self.providers);
        }
        let ki_opt = find_key_index(&self.providers, &record.key);
        match ki_opt {
            None => {
                if self.providers.len() == self.config.max_provided_keys {
                    return Err(StoreError::MaxProvidedKeys);
                }
                assert(t0.len() < self.config.max_provided_keys);
                let key_b = clone_bytes(&record.key);
                if self.config.max_providers_per_key > 0 {
                    let is_local = bytes_eq(&record.provider, &self.local_key);
                    if is_local {
                        self.provided.push(clone_provider(&record));
                    }
                    proof {
                        lemma_deep_view_pointwise(self.provided);
                        if record@.provider == local {
                            assert(self.provided.deep_view() =~= p0.push(record@));
                        }
                    }
                    let ghost pvec1 = self.providers;
                    let mut list: Vec<ProviderRecord> = Vec::new();
                    list.push(record);
                    let ghost lvec = list;
                    self.providers.push((key_b, list));
                    proof {
                        lemma_deep_view_pointwise(pvec1);
                        lemma_deep_view_pointwise(self.providers);
                        lemma_deep_view_pointwise(lvec);
                        assert(lvec.deep_view() =~= seq![record@]);
                        assert(self.providers.deep_view() =~= t0.push((record@.key, seq![record@])));
                        lemma_add_new_key(
                            local,
                            t0,
                            p0,
                            self.provided_view(),
                            record@,
                            cap,
                            self.config.max_provided_keys,
                        );
                    }
                } else {
                    let ghost pvec1 = self.providers;
                    let empty_list: Vec<ProviderRecord> = Vec::new();
                    let ghost lvec = empty_list;
                    self.providers.push((key_b, empty_list));
                    proof {
                        lemma_deep_view_pointwise(pvec1);
                        lemma_deep_view_pointwise(self.providers);
                        lemma_deep_view_pointwise(lvec);
                        assert(lvec.deep_view() =~= Seq::<ProviderRecordV>::empty());
                        assert(self.providers.deep_view() =~= t0.push(
                            (record@.key, Seq::<ProviderRecordV>::empty()),
                        ));
                        lemma_add_new_key_empty(
                            local,
                            t0,
                            p0,
                            record@,
                            self.config.max_provided_keys,
                        );
                    }
                }
                Ok(())
            },
            Some(ki) => {
                proof {
                    let w = table_key_index(t0, record@.key);
                    assert(t0[ki as int].0 == record@.key);
                    assert(has_table_key(t0, record@.key));
                    assert(t0[w].0 == record@.key);
                    assert(w == ki as int);
                }
                let pair = self.providers.remove(ki);
                let key_b = pair.0;
                let mut list = pair.1;
                proof {
                    lemma_deep_view_pointwise(self.providers);
                    assert(self.providers.deep_view() =~= t0.remove(ki as int));
                    assert(pair.deep_view() == t0[ki as int]);
                }
                let ghost l0 = t0[ki as int].1;
                assert(list.deep_view() == l0);
                assert(key_b@ == record@.key);
                let pi_opt = find_provider_index(&list, &record.provider);
                match pi_opt {
                    Some(pi) => {
                        let is_local = bytes_eq(&record.provider, &self.local_key);
                        let ghost pmid = p0;
                        if is_local {
                            provided_remove(&mut self.provided, &record.key, &record.provider);
                            proof {
                                pmid = self.provided.deep_view();
                            }
                            self.provided.push(clone_provider(&record));
                            proof {
                                lemma_deep_view_pointwise(self.provided);
                                assert(self.provided.deep_view() =~= pmid.push(record@));
                            }
                        }
                        let ghost lvec0 = list;
                        list.set(pi, record);
                        proof {
                            lemma_deep_view_pointwise(lvec0);
                            lemma_deep_view_pointwise(list);
                            assert(list.deep_view() =~= l0.update(pi as int, record@));
                        }
                        let ghost l2 = list.deep_view();
                        let ghost pvec1 = self.providers;
                        self.providers.insert(ki, (key_b, list));
                        proof {
                            lemma_deep_view_pointwise(pvec1);
                            lemma_deep_view_pointwise(self.providers);
                            assert(self.providers.deep_view() =~= t0.update(
                                ki as int,
                                (record@.key, l2),
                            ));
                            lemma_add_update_in_place(
                                local,
                                t0,
                                p0,
                                pmid,
                                self.provided_view(),
                                ki as int,
                                pi as int,
                                record@,
                                cap,
                                self.config.max_provided_keys,
                            );
                        }
                        Ok(())
                    },
                    None => {
                        let pos = find_insert_position(&key_b, &list, &record.provider);
                        if pos < list.len() || list.len() < self.config.max_providers_per_key {
                            let is_local = bytes_eq(&record.provider, &self.local_key);
                            if is_local {
                                self.provided.push(clone_provider(&record));
                            }
                            proof {
                                lemma_deep_view_pointwise(self.provided);
                                if record@.provider == local {
                                    assert(self.provided.deep_view() =~= p0.push(record@));
                                }
                            }
                            let ghost pmid = self.provided.deep_view();
                            let ghost had_room = (list@.len() < cap);
                            let ghost lvec0 = list;
                            list.insert(pos, record);
                            proof {
                                lemma_deep_view_pointwise(lvec0);
                                lemma_deep_view_pointwise(list);
                                assert(list.deep_view() =~= l0.insert(pos as int, record@));
                            }
                            if list.len() > self.config.max_providers_per_key {
                                assert(l0.len() == cap && (pos as int) < l0.len());
                                let ghost lvec1 = list;
                                let popped = list.pop();
                                match popped {
                                    Some(evicted) => {
                                        proof {
                                            lemma_deep_view_pointwise(lvec1);
                                            lemma_deep_view_pointwise(list);
                                            assert(list.deep_view() =~= l0.insert(
                                                pos as int,
                                                record@,
                                            ).drop_last());
                                            assert(evicted@ == l0.last());
                                        }
                                        provided_remove(
                                            &mut self.provided,
                                            &evicted.key,
                                            &evicted.provider,
                                        );
                                        let ghost l2 = list.deep_view();
                                        let ghost pvec1 = self.providers;
                                        self.providers.insert(ki, (key_b, list));
                                        proof {
                                            lemma_deep_view_pointwise(pvec1);
                                            lemma_deep_view_pointwise(self.providers);
                                            assert(self.providers.deep_view() =~= t0.update(
                                                ki as int,
                                                (record@.key, l2),
                                            ));
                                            lemma_add_insert_evict(
                                                local,
                                                t0,
                                                p0,
                                                pmid,
                                                self.provided_view(),
                                                ki as int,
                                                pos as int,
                                                record@,
                                                cap,
                                                self.config.max_provided_keys,
                                            );
                                        }
                                    },
                                    None => {
                                        proof {
                                            assert(false);
                                        }
                                    },
                                }
                            } else {
                                proof {
                                    assert(l0.len() < cap);
                                }
                                let ghost l2 = list.deep_view();
                                let ghost pvec1 = self.providers;
                                self.providers.insert(ki, (key_b, list));
                                proof {
                                    lemma_deep_view_pointwise(pvec1);
                                    lemma_deep_view_pointwise(self.providers);
                                    assert(self.providers.deep_view() =~= t0.update(
                                        ki as int,
                                        (record@.key, l2),
                                    ));
                                    lemma_add_insert_no_evict(
                                        local,
                                        t0,
                                        p0,
                                        self.provided_view(),
                                        ki as int,
                                        pos as int,
                                        record@,
                                        cap,
                                        self.config.max_provided_keys,
                                    );
                                }
                            }
                            Ok(())
                        } else {
                            // the new provider is the farthest and the list
                            // is full: silently dropped
                            let ghost pvec1 = self.providers;
                            self.providers.insert(ki, (key_b, list));
                            proof {
                                lemma_deep_view_pointwise(pvec1);
                                lemma_deep_view_pointwise(self.providers);
                                assert(self.providers.deep_view() =~= t0.update(
                                    ki as int,
                                    (record@.key, l0),
                                ));
                                assert(t0.update(ki as int, (record@.key, l0)) =~= t0);
                                assert(updated_list(record@.key, l0, record@, cap) == l0);
                                assert(add_provider_spec(t0, record@, cap) == t0.update(
                                    ki as int,
                                    (record@.key, l0),
                                ));
                            }
                            Ok(())
                        }
                    },
                }
            },
        }
    }
}

} // verus!

verus! {

/// The record a full list gives up when a new provider is admitted: the
/// current farthest entry if the newcomer ranks before it, else the
/// newcomer itself.
pub open spec fn evicted_of(
    k: Seq<u8>,
    l: Seq<ProviderRecordV>,
    r: ProviderRecordV,
) -> ProviderRecordV {
    if insert_pos(k, l, r.provider) < l.len() {
        l.last()
    } else {
        r
    }
}

/// Eviction correctness: admitting a new, distinct provider to a full list
/// keeps the list at capacity, and the one record left out is a farthest
/// one: its distance to the key is at least that of every old record and of
/// the newcomer; all the others stay, and nothing else enters.
pub proof fn lemma_eviction_correct(
    k: Seq<u8>,
    l: Seq<ProviderRecordV>,
    r: ProviderRecordV,
    cap: usize,
)
    requires
        list_wf(k, l, cap),
        l.len() == cap,
        cap > 0,
        r.key == k,
        !has_provider(l, r.provider),
    ensures
        updated_list(k, l, r, cap).len() == cap,
        list_wf(k, updated_list(k, l, r, cap), cap),
        evicted_of(k, l, r) == r || l.contains(evicted_of(k, l, r)),
        forall|x: ProviderRecordV|
            #[trigger] l.contains(x) ==> distance_of(k, x.provider) <= distance_of(
                k,
                evicted_of(k, l, r).provider,
            ),
        distance_of(k, r.provider) <= distance_of(k, evicted_of(k, l, r).provider),
        forall|x: ProviderRecordV|
            #[trigger] updated_list(k, l, r, cap).contains(x) ==> ((x == r || l.contains(x)) && x
                != evicted_of(k, l, r)),
        forall|x: ProviderRecordV|
            (x == r || #[trigger] l.contains(x)) && x != evicted_of(k, l, r) ==> updated_list(
                k,
                l,
                r,
                cap,
            ).contains(x),
{
    let pos = insert_pos(k, l, r.provider);
    let l2 = updated_list(k, l, r, cap);
    let m = evicted_of(k, l, r);
    lemma_insert_pos_char(k, l, r.provider);
    assert(!l.contains(r)) by {
        if l.contains(r) {
            let j = choose|j: int| 0 <= j < l.len() && l[j] == r;
            assert(has_provider(l, r.provider));
        }
    }
    if pos < l.len() {
        let g = l.insert(pos, r);
        l.insert_ensures(pos, r);
        assert forall|j: int| 0 <= j < pos implies distance_of(
            k,
            (#[trigger] l[j]).provider,
        ) <= distance_of(k, r.provider) by {
            assert(!(distance_of(k, r.provider) < distance_of(k, l[j].provider)));
        }
        lemma_sorted_insert(k, l, r, pos);
        assert forall|a: int, b: int| 0 <= a < b < g.len() implies g[a].provider
            != g[b].provider by {
            let a0 = if a < pos { a } else { a - 1 };
            let b0 = if b < pos { b } else { b - 1 };
            if a == pos {
                assert(g[b] == l[b0]);
                if l[b0].provider == r.provider {
                    assert(has_provider(l, r.provider));
                }
            } else if b == pos {
                assert(g[a] == l[a0]);
                if l[a0].provider == r.provider {
                    assert(has_provider(l, r.provider));
                }
            } else {
                assert(g[a] == l[a0] && g[b] == l[b0]);
            }
        }
        assert forall|a: int| 0 <= a < g.len() implies (#[trigger] g[a]).key == k by {
            if a != pos {
                let a0 = if a < pos { a } else { a - 1 };
                assert(g[a] == l[a0]);
            }
        }
        assert(list_sorted(k, g.drop_last()));
        assert(list_wf(k, g.drop_last(), cap));
        assert(m == l.last());
        assert(l.contains(m)) by {
            assert(l[l.len() - 1] == m);
        }
        assert(g.len() == cap + 1);
        assert(l2 == g.drop_last());
        assert(l2.len() == cap);
        assert(forall|x: int| 0 <= x < cap ==> l2[x] == g[x]);
        assert forall|x: ProviderRecordV| #[trigger] l.contains(x) implies distance_of(
            k,
            x.provider,
        ) <= distance_of(k, m.provider) by {
            let j = choose|j: int| 0 <= j < l.len() && l[j] == x;
            if j < l.len() - 1 {
                assert(distance_of(k, l[j].provider) <= distance_of(k, l[l.len() - 1].provider));
            }
        }
        assert(distance_of(k, r.provider) < distance_of(k, l[pos].provider));
        assert(distance_of(k, l[pos].provider) <= distance_of(k, m.provider)) by {
            if pos < l.len() - 1 {
                assert(distance_of(k, l[pos].provider) <= distance_of(k, l[l.len() - 1].provider));
            }
        }
        assert forall|x: ProviderRecordV| #[trigger] l2.contains(x) implies ((x == r || l.contains(
            x,
        )) && x != m) by {
            let b2 = choose|b2: int| 0 <= b2 < l2.len() && l2[b2] == x;
            if b2 == pos {
                assert(x == r);
                assert(r != m) by {
                    if r == m {
                        assert(has_provider(l, r.provider)) by {
                            assert(l[l.len() - 1].provider == r.provider);
                        }
                    }
                }
            } else {
                let b = if b2 < pos {
                    b2
                } else {
                    b2 - 1
                };
                assert(x == l[b]);
                assert(b < l.len() - 1);
                assert(l.contains(x)) by {
                    assert(l[b] == x);
                }
                assert(x != m) by {
                    if x == m {
                        assert(l[b].provider == l[l.len() - 1].provider);
                        assert(false);
                    }
                }
            }
        }
        assert forall|x: ProviderRecordV| (x == r || #[trigger] l.contains(x)) && x != m implies
            l2.contains(x) by {
            if x == r {
                assert(l2[pos] == r);
            } else {
                let b = choose|b: int| 0 <= b < l.len() && l[b] == x;
                if b == l.len() - 1 {
                    assert(x == m);
                    assert(false);
                }
                let b2 = if b < pos {
                    b
                } else {
                    b + 1
                };
                assert(l2[b2] == x);
            }
        }
    } else {
        assert(m == r);
        assert(l2 == l);
        assert forall|x: ProviderRecordV| #[trigger] l.contains(x) implies distance_of(
            k,
            x.provider,
        ) <= distance_of(k, m.provider) by {
            let j = choose|j: int| 0 <= j < l.len() && l[j] == x;
            assert(!(distance_of(k, r.provider) < distance_of(k, l[j].provider)));
        }
        assert forall|x: ProviderRecordV| #[trigger] l2.contains(x) implies ((x == r || l.contains(
            x,
        )) && x != m) by {
            assert(l.contains(x));
            assert(x != r);
        }
    }
}

/// Provided-set synchronization: a record is in the local provided set
/// exactly when it stands somewhere in the provider table and its provider
/// is the local node.
pub proof fn lemma_provided_set_synchronized<T: Database>(s: &Store<T>)
    requires
        s.wf(),
    ensures
        forall|r: ProviderRecordV|
            #[trigger] s.provided_view().contains(r) <==> (in_table(s.table(), r) && r.provider
                == s.local()),
{
    assert forall|r: ProviderRecordV| #[trigger] s.provided_view().contains(r) implies (in_table(
        s.table(),
        r,
    ) && r.provider == s.local()) by {
        let m = choose|m: int| 0 <= m < s.provided_view().len() && s.provided_view()[m] == r;
        assert(s.provided_view()[m].provider == s.local() && in_table(
            s.table(),
            s.provided_view()[m],
        ));
    }
    assert forall|r: ProviderRecordV| in_table(s.table(), r) && r.provider == s.local() implies
        #[trigger] s.provided_view().contains(r) by {
        let (i, j) = choose|i: int, j: int|
            0 <= i < s.table().len() && 0 <= j < s.table()[i].1.len() && s.table()[i].1[j] == r;
        assert(s.table()[i].1[j].provider == s.local());
        assert(s.provided_view().contains(s.table()[i].1[j]));
    }
}

/// Idempotent removal: removing a (key, provider) pair that is not in the
/// table changes the table not at all. (Left out: a key tracked with an
/// empty provider list, which only a zero per-key capacity can produce;
/// removal then drops that key's entry.)
pub proof fn lemma_idempotent_removal(t: TableV, cap: usize, k: Seq<u8>, p: Seq<u8>)
    requires
        table_wf(t, cap),
        cap > 0,
        forall|j: int|
            0 <= j < providers_of(t, k).len() ==> (#[trigger] providers_of(t, k)[j]).provider
                != p,
    ensures
        remove_provider_spec(t, k, p) == t,
{
    if has_table_key(t, k) {
        let i = table_key_index(t, k);
        assert(t[i].0 == k);
        let l = t[i].1;
        assert(providers_of(t, k) == l);
        assert(!has_provider(l, p)) by {
            if has_provider(l, p) {
                let j = choose|j: int| 0 <= j < l.len() && l[j].provider == p;
                assert(providers_of(t, k)[j].provider != p);
            }
        }
        assert(list_wf(t[i].0, t[i].1, cap));
        assert(l.len() > 0);
        assert(t.update(i, (t[i].0, l)) =~= t);
    }
}

} // verus!

verus! {

/// The per-key list after admitting each record of a sequence in turn.
pub open spec fn admit_all(
    k: Seq<u8>,
    l: Seq<ProviderRecordV>,
    rs: Seq<ProviderRecordV>,
    cap: usize,
) -> Seq<ProviderRecordV>
    decreases rs.len(),
{
    if rs.len() == 0 {
        l
    } else {
        admit_all(k, updated_list(k, l, rs[0], cap), rs.drop_first(), cap)
    }
}

/// A distance-ranked selection of the admitted records: the list holds
/// records of `added` — all of them while they fit the capacity, exactly
/// `cap` of them once they no longer do — sorted by distance to the key,
/// one record per provider, and no record left out is strictly closer than
/// any record kept.
pub open spec fn ranked_selection(
    k: Seq<u8>,
    added: Seq<ProviderRecordV>,
    l: Seq<ProviderRecordV>,
    cap: usize,
) -> bool {
    &&& list_sorted(k, l)
    &&& forall|a: int, b: int| 0 <= a < b < l.len() ==> l[a].provider != l[b].provider
    &&& forall|a: int| 0 <= a < l.len() ==> (#[trigger] l[a]).key == k
    &&& forall|x: ProviderRecordV| #[trigger] l.contains(x) ==> added.contains(x)
    &&& (added.len() <= cap ==> l.len() == added.len() && (forall|x: ProviderRecordV|
        #[trigger] added.contains(x) ==> l.contains(x)))
    &&& (added.len() > cap ==> l.len() == cap)
    &&& forall|x: ProviderRecordV, y: ProviderRecordV|
        #![trigger added.contains(x), l.contains(y)]
        added.contains(x) && !l.contains(x) && l.contains(y) ==> distance_of(k, y.provider)
            <= distance_of(k, x.provider)
}

/// Admitting one more record of a fresh provider keeps the list a ranked
/// selection.
proof fn lemma_admit_one_ranked(
    k: Seq<u8>,
    added: Seq<ProviderRecordV>,
    l: Seq<ProviderRecordV>,
    r: ProviderRecordV,
    cap: usize,
)
    requires
        cap > 0,
        ranked_selection(k, added, l, cap),
        r.key == k,
        forall|x: ProviderRecordV| #[trigger] added.contains(x) ==> x.provider != r.provider,
    ensures
        ranked_selection(k, added.push(r), updated_list(k, l, r, cap), cap),
{
    let l2 = updated_list(k, l, r, cap);
    let a2 = added.push(r);
    assert forall|x: ProviderRecordV| #[trigger] added.contains(x) implies a2.contains(x) by {
        let i = choose|i: int| 0 <= i < added.len() && added[i] == x;
        assert(a2[i] == x);
    }
    assert(a2.contains(r)) by {
        assert(a2[a2.len() - 1] == r);
    }
    assert forall|x: ProviderRecordV| #[trigger] a2.contains(x) implies (x == r || added.contains(
        x,
    )) by {
        let i = choose|i: int| 0 <= i < a2.len() && a2[i] == x;
        if i < added.len() {
            assert(added[i] == x);
        }
    }
    assert(!has_provider(l, r.provider)) by {
        if has_provider(l, r.provider) {
            let j = choose|j: int| 0 <= j < l.len() && l[j].provider == r.provider;
            assert(l.contains(l[j])) by {
                assert(l[j] == l[j]);
            }
            assert(added.contains(l[j]));
        }
    }
    let pos = insert_pos(k, l, r.provider);
    lemma_insert_pos_char(k, l, r.provider);
    if l.len() < cap {
        // the list still tracks every admitted record
        assert(added.len() <= cap);
        assert(l.len() == added.len());
        let g = l.insert(pos, r);
        l.insert_ensures(pos, r);
        assert(l2 == g) by {
            if pos < l.len() {
                assert(g.len() == l.len() + 1 <= cap);
            } else {
                assert(g =~= l.push(r));
            }
        }
        assert forall|j: int| 0 <= j < pos implies distance_of(
            k,
            (#[trigger] l[j]).provider,
        ) <= distance_of(k, r.provider) by {
            assert(!(distance_of(k, r.provider) < distance_of(k, l[j].provider)));
        }
        lemma_sorted_insert(k, l, r, pos);
        assert forall|a: int, b: int| 0 <= a < b < g.len() implies g[a].provider
            != g[b].provider by {
            let a0 = if a < pos { a } else { a - 1 };
            let b0 = if b < pos { b } else { b - 1 };
            if a == pos {
                assert(g[b] == l[b0]);
                if l[b0].provider == r.provider {
                    assert(has_provider(l, r.provider));
                }
            } else if b == pos {
                assert(g[a] == l[a0]);
                if l[a0].provider == r.provider {
                    assert(has_provider(l, r.provider));
                }
            } else {
                assert(g[a] == l[a0] && g[b] == l[b0]);
            }
        }
        assert forall|a: int| 0 <= a < g.len() implies (#[trigger] g[a]).key == k by {
            if a != pos {
                let a0 = if a < pos { a } else { a - 1 };
                assert(g[a] == l[a0]);
            }
        }
        assert forall|x: ProviderRecordV| #[trigger] g.contains(x) implies (x == r || l.contains(
            x,
        )) by {
            let b2 = choose|b2: int| 0 <= b2 < g.len() && g[b2] == x;
            if b2 != pos {
                let b = if b2 < pos {
                    b2
                } else {
                    b2 - 1
                };
                assert(l[b] == x);
            }
        }
        assert forall|x: ProviderRecordV| #[trigger] a2.contains(x) implies g.contains(x) by {
            if x == r {
                assert(g[pos] == r);
            } else {
                assert(added.contains(x));
                assert(l.contains(x));
                let b = choose|b: int| 0 <= b < l.len() && l[b] == x;
                let b2 = if b < pos {
                    b
                } else {
                    b + 1
                };
                assert(g[b2] == x);
            }
        }
        assert forall|x: ProviderRecordV, y: ProviderRecordV|
            #![trigger a2.contains(x), g.contains(y)]
            a2.contains(x) && !g.contains(x) && g.contains(y) implies distance_of(k, y.provider)
            <= distance_of(k, x.provider) by {
            assert(g.contains(x));
        }
        assert(ranked_selection(k, a2, l2, cap));
    } else {
        assert(l.len() == cap);
        assert(added.len() >= cap);
        assert(list_wf(k, l, cap)) by {
            assert(l.len() > 0);
        }
        lemma_eviction_correct(k, l, r, cap);
        let m = evicted_of(k, l, r);
        assert forall|x: ProviderRecordV| #[trigger] l2.contains(x) implies a2.contains(x) by {
            assert((x == r || l.contains(x)) && x != m);
            if x == r {
            } else {
                assert(added.contains(x));
            }
        }
        assert(a2.len() > cap);
        assert(l2.len() == cap);
        assert forall|x: ProviderRecordV, y: ProviderRecordV|
            #![trigger a2.contains(x), l2.contains(y)]
            a2.contains(x) && !l2.contains(x) && l2.contains(y) implies distance_of(k, y.provider)
            <= distance_of(k, x.provider) by {
            assert((y == r || l.contains(y)) && y != m);
            let pos2 = insert_pos(k, l, r.provider);
            lemma_insert_pos_char(k, l, r.provider);
            if x == r {
                // the newcomer only stays out when it is itself the evicted one
                if pos2 < l.len() {
                    l.insert_ensures(pos2, r);
                    assert(l2 == l.insert(pos2, r).drop_last());
                    assert(l.insert(pos2, r).drop_last()[pos2] == r);
                    assert(l2.contains(r));
                    assert(false);
                }
                assert(m == r);
                assert(distance_of(k, y.provider) <= distance_of(k, m.provider));
            } else if added.contains(x) && l.contains(x) {
                let b = choose|b: int| 0 <= b < l.len() && l[b] == x;
                if pos2 < l.len() {
                    l.insert_ensures(pos2, r);
                    assert(l2 == l.insert(pos2, r).drop_last());
                    if b == l.len() - 1 {
                        assert(x == m);
                    } else {
                        let b2 = if b < pos2 {
                            b
                        } else {
                            b + 1
                        };
                        assert(l.insert(pos2, r)[b2] == x);
                        assert(l2[b2] == x);
                        assert(l2.contains(x));
                        assert(false);
                    }
                } else {
                    assert(l2 == l);
                    assert(l2.contains(x));
                    assert(false);
                }
                assert(distance_of(k, y.provider) <= distance_of(k, m.provider));
            } else {
                // an admitted record the list had already left out
                assert(added.contains(x));
                if y == r {
                    assert(distance_of(k, r.provider) <= distance_of(k, m.provider));
                    if m == r {
                        assert(l2.contains(y) && y == r && r != m);
                        assert(false);
                    }
                    assert(l.contains(m));
                    assert(distance_of(k, m.provider) <= distance_of(k, x.provider));
                } else {
                    assert(l.contains(y));
                    assert(distance_of(k, y.provider) <= distance_of(k, x.provider));
                }
            }
        }
        assert(ranked_selection(k, a2, l2, cap));
    }
}

/// Admitting a whole sequence of records with fresh, pairwise-distinct
/// providers keeps the list a ranked selection.
proof fn lemma_admit_all_ranked(
    k: Seq<u8>,
    added: Seq<ProviderRecordV>,
    l: Seq<ProviderRecordV>,
    rs: Seq<ProviderRecordV>,
    cap: usize,
)
    requires
        cap > 0,
        ranked_selection(k, added, l, cap),
        forall|i: int| 0 <= i < rs.len() ==> (#[trigger] rs[i]).key == k,
        forall|i: int, j: int| 0 <= i < j < rs.len() ==> rs[i].provider != rs[j].provider,
        forall|i: int, x: ProviderRecordV|
            0 <= i < rs.len() && #[trigger] added.contains(x) ==> (#[trigger] rs[i]).provider
                != x.provider,
    ensures
        ranked_selection(k, added + rs, admit_all(k, l, rs, cap), cap),
    decreases rs.len(),
{
    if rs.len() == 0 {
        assert(added + rs =~= added);
    } else {
        let r = rs[0];
        assert forall|x: ProviderRecordV| #[trigger] added.contains(x) implies x.provider
            != r.provider by {
            assert(rs[0].provider != x.provider);
        }
        lemma_admit_one_ranked(k, added, l, r, cap);
        let a2 = added.push(r);
        let rest = rs.drop_first();
        assert(forall|i: int| 0 <= i < rest.len() ==> #[trigger] rest[i] == rs[i + 1]);
        assert forall|i: int, x: ProviderRecordV|
            0 <= i < rest.len() && #[trigger] a2.contains(x) implies (#[trigger] rest[i]).provider
            != x.provider by {
            let w = choose|w: int| 0 <= w < a2.len() && a2[w] == x;
            if w < added.len() {
                assert(added[w] == x);
                assert(added.contains(x));
                assert(rs[i + 1].provider != x.provider);
            } else {
                assert(x == r);
                assert(rs[i + 1].provider != rs[0].provider);
            }
        }
        lemma_admit_all_ranked(k, a2, updated_list(k, l, r, cap), rest, cap);
        assert(a2 + rest =~= added + rs);
    }
}

/// Distance ordering regardless of insertion order: admitting any sequence
/// of records for one key, with pairwise-distinct providers, from an empty
/// list, leaves a ranked selection — sorted ascending by distance and never
/// longer than the capacity.
pub proof fn lemma_ranking_any_order(k: Seq<u8>, rs: Seq<ProviderRecordV>, cap: usize)
    requires
        cap > 0,
        forall|i: int| 0 <= i < rs.len() ==> (#[trigger] rs[i]).key == k,
        forall|i: int, j: int| 0 <= i < j < rs.len() ==> rs[i].provider != rs[j].provider,
    ensures
        ranked_selection(k, rs, admit_all(k, Seq::empty(), rs, cap), cap),
        list_sorted(k, admit_all(k, Seq::empty(), rs, cap)),
        admit_all(k, Seq::empty(), rs, cap).len() <= cap,
{
    let e = Seq::<ProviderRecordV>::empty();
    assert(ranked_selection(k, e, e, cap)) by {
        assert(forall|x: ProviderRecordV| !e.contains(x));
    }
    lemma_admit_all_ranked(k, e, e, rs, cap);
    assert(e + rs =~= rs);
    let fl = admit_all(k, e, rs, cap);
    if rs.len() <= cap {
        assert(fl.len() == rs.len());
    }
}

/// Eviction correctness regardless of insertion order: admitting one more
/// distinct provider than the capacity holds, with a unique farthest one,
/// keeps exactly the others — whatever the order of admission.
pub proof fn lemma_eviction_any_order(k: Seq<u8>, rs: Seq<ProviderRecordV>, cap: usize, f: int)
    requires
        cap > 0,
        rs.len() == cap + 1,
        forall|i: int| 0 <= i < rs.len() ==> (#[trigger] rs[i]).key == k,
        forall|i: int, j: int| 0 <= i < j < rs.len() ==> rs[i].provider != rs[j].provider,
        0 <= f < rs.len(),
        forall|j: int|
            0 <= j < rs.len() && j != f ==> distance_of(k, (#[trigger] rs[j]).provider)
                < distance_of(k, rs[f].provider),
    ensures
        admit_all(k, Seq::empty(), rs, cap).len() == cap,
        forall|x: ProviderRecordV|
            #[trigger] admit_all(k, Seq::empty(), rs, cap).contains(x) <==> (rs.contains(x) && x
                != rs[f]),
{
    broadcast use vstd::seq_lib::seq_to_set_is_finite;

    lemma_ranking_any_order(k, rs, cap);
    let fl = admit_all(k, Seq::<ProviderRecordV>::empty(), rs, cap);
    assert(rs.len() > cap);
    assert(fl.len() == cap);
    assert(rs.no_duplicates()) by {
        assert forall|i: int, j: int| 0 <= i < rs.len() && 0 <= j < rs.len() && i != j implies rs[i]
            != rs[j] by {
            if i < j {
                assert(rs[i].provider != rs[j].provider);
            } else {
                assert(rs[j].provider != rs[i].provider);
            }
        }
    }
    assert(fl.no_duplicates()) by {
        assert forall|a: int, b: int| 0 <= a < fl.len() && 0 <= b < fl.len() && a != b implies
            fl[a] != fl[b] by {
            if a < b {
                assert(fl[a].provider != fl[b].provider);
            } else {
                assert(fl[b].provider != fl[a].provider);
            }
        }
    }
    rs.unique_seq_to_set();
    fl.unique_seq_to_set();
    assert(rs.contains(rs[f]));
    // every record but the farthest is kept
    assert forall|x: ProviderRecordV| rs.contains(x) && x != rs[f] implies #[trigger] fl.contains(
        x,
    ) by {
        if !fl.contains(x) {
            assert forall|y: ProviderRecordV| #[trigger] fl.contains(y) implies distance_of(
                k,
                y.provider,
            ) <= distance_of(k, x.provider) by {
            }
            let xi = choose|xi: int| 0 <= xi < rs.len() && rs[xi] == x;
            assert(xi != f);
            assert(distance_of(k, x.provider) < distance_of(k, rs[f].provider));
            assert(!fl.contains(rs[f])) by {
                if fl.contains(rs[f]) {
                    assert(distance_of(k, rs[f].provider) <= distance_of(k, x.provider));
                }
            }
            let small = rs.to_set().remove(rs[f]).remove(x);
            assert(fl.to_set().subset_of(small)) by {
                assert forall|y: ProviderRecordV| #[trigger] fl.to_set().contains(y) implies
                    small.contains(y) by {
                    assert(fl.contains(y));
                    assert(rs.contains(y));
                    assert(y != rs[f] && y != x);
                }
            }
            assert(rs.to_set().len() == cap + 1);
            assert(rs.to_set().contains(rs[f]) && rs.to_set().contains(x));
            assert(small.len() == cap - 1);
            vstd::set_lib::lemma_len_subset(fl.to_set(), small);
            assert(cap <= cap - 1);
            assert(false);
        }
    }
    // and the farthest is the one missing
    assert(!fl.contains(rs[f])) by {
        if fl.contains(rs[f]) {
            assert(rs.to_set().subset_of(fl.to_set())) by {
                assert forall|y: ProviderRecordV| #[trigger] rs.to_set().contains(y) implies
                    fl.to_set().contains(y) by {
                    assert(rs.contains(y));
                    if y != rs[f] {
                        assert(fl.contains(y));
                    }
                }
            }
            vstd::set_lib::lemma_len_subset(rs.to_set(), fl.to_set());
            assert(cap + 1 <= cap);
            assert(false);
        }
    }
    assert forall|x: ProviderRecordV| #[trigger] fl.contains(x) implies (rs.contains(x) && x
        != rs[f]) by {
    }
}

} // verus!
