//! The in-memory record store of a worker, split into partitions.
//!
//! Records live in a two-level concurrent map from `dashmap`: partition,
//! then key.  A partition is dropped from the store as soon as it holds no
//! record.
use crate::collections::{lemma_take_step_contains, Keyed, SortedSet};
use crate::common::PARTITIONS_AMOUNT;
use std::sync::Arc;
use vstd::prelude::*;

verus! {

/// Number of a partition of the key space.
#[derive(Debug, Clone, Copy, PartialEq, Eq, Structural, Hash)]
pub struct PartitionId(pub u16);

/// Key of a stored record.
#[derive(Debug, Clone, Copy, PartialEq, Eq, Structural, Hash)]
pub struct Key(pub u64);

impl View for Key {
    type V = Key;

    open spec fn view(&self) -> Key {
        *self
    }
}

/// The partition a key belongs to: the key modulo the number of partitions.
pub open spec fn partition_of(key: Key) -> PartitionId {
    PartitionId((key.0 % (PARTITIONS_AMOUNT as u64)) as u16)
}

impl From<Key> for PartitionId {
    fn from(key: Key) -> (p: Self) {
        PartitionId((key.0 % (PARTITIONS_AMOUNT as u64)) as u16)
    }
}

impl vstd::std_specs::convert::FromSpecImpl<Key> for PartitionId {
    open spec fn obeys_from_spec() -> bool {
        true
    }

    open spec fn from_spec(v: Key) -> PartitionId {
        partition_of(v)
    }
}

/// A stored record: when it expires (0 for never), when it was created, and
/// its bytes.
#[derive(Debug, Clone)]
pub struct Record {
    pub expiration_time_ms: u64,
    pub creation_time_ms: u64,
    pub value: Vec<u8>,
}

/// The abstract content of a stored record.
pub struct StoredRecord {
    pub expiration_time_ms: u64,
    pub creation_time_ms: u64,
    pub value: Seq<u8>,
}

impl View for Record {
    type V = StoredRecord;

    open spec fn view(&self) -> StoredRecord {
        StoredRecord {
            expiration_time_ms: self.expiration_time_ms,
            creation_time_ms: self.creation_time_ms,
            value: self.value@,
        }
    }
}

#[verifier::external_type_specification]
#[verifier::external_body]
#[verifier::reject_recursive_types(K)]
#[verifier::reject_recursive_types(V)]
#[verifier::reject_recursive_types(S)]
pub struct ExDashMap<K, V, S>(dashmap::DashMap<K, V, S>);

/// The two-level map that holds the records.
pub type Cache = dashmap::DashMap<PartitionId, dashmap::DashMap<Key, Arc<Record>>>;

/// What the store holds: the records of each partition, by key.
pub uninterp spec fn cache_contents(cache: Cache) -> Map<PartitionId, Map<Key, StoredRecord>>;

/// Whether the store holds a record under `key` in `partition`.
pub open spec fn contents_has(
    contents: Map<PartitionId, Map<Key, StoredRecord>>,
    partition: PartitionId,
    key: Key,
) -> bool {
    contents.dom().contains(partition) && contents[partition].dom().contains(key)
}

/// How many records the partition holds.
pub open spec fn partition_size(contents: Map<PartitionId, Map<Key, StoredRecord>>, partition: PartitionId) -> nat {
    if contents.dom().contains(partition) {
        contents[partition].dom().len()
    } else {
        0
    }
}

/// A store with no partition.
pub open spec fn no_records() -> Map<PartitionId, Map<Key, StoredRecord>> {
    Map::empty()
}

/// Makes an empty map with `DashMap::new`.
#[verifier::external_body]
fn cache_new() -> (created: Cache)
    ensures
        cache_contents(created) == no_records(),
{
    dashmap::DashMap::new()
}

/// Looks a record up with `DashMap::get` on the partition, then on the key.
/// Trusted to find exactly what the map holds.
#[verifier::external_body]
fn cache_get(cache: &Cache, partition: PartitionId, key: Key) -> (res: Option<Arc<Record>>)
    ensures
        res is Some <==> contents_has(cache_contents(*cache), partition, key),
        res matches Some(r) ==> r@ == cache_contents(*cache)[partition][key],
{
    let records = cache.get(&partition)?;
    let record = records.get(&key)?;
    let value = record.value().clone();
    Some(value)
}

/// Counts the records of a partition with `DashMap::len`, where the
/// partition is present.
#[verifier::external_body]
fn cache_partition_len(cache: &Cache, partition: PartitionId) -> (res: Option<usize>)
    ensures
        res is Some <==> cache_contents(*cache).dom().contains(partition),
        res matches Some(n) ==> cache_contents(*cache)[partition].dom().finite() && n
            == cache_contents(*cache)[partition].dom().len(),
{
    cache.get(&partition).map(|m| m.len())
}

/// Stores a record with `DashMap::insert` into the partition, which
/// `entry(..).or_default()` creates when absent.  Trusted to replace what the
/// key held.
#[verifier::external_body]
fn cache_insert(cache: &mut Cache, partition: PartitionId, key: Key, record: Arc<Record>)
    ensures
        cache_contents(*final(cache)) == cache_contents(*old(cache)).insert(
            partition,
            (if cache_contents(*old(cache)).dom().contains(partition) {
                cache_contents(*old(cache))[partition]
            } else {
                Map::<Key, StoredRecord>::empty()
            }).insert(key, record@),
        ),
{
    cache.entry(partition).or_default().insert(key, record);
}

/// Removes a record with `DashMap::remove` on the partition's map; reports
/// whether the key was there.  An emptied partition stays in the store.
#[verifier::external_body]
fn cache_remove(cache: &mut Cache, partition: PartitionId, key: Key) -> (removed: bool)
    ensures
        removed == (cache_contents(*old(cache)).dom().contains(partition) && cache_contents(
            *old(cache),
        )[partition].dom().contains(key)),
        cache_contents(*final(cache)) == if removed {
            cache_contents(*old(cache)).insert(
                partition,
                cache_contents(*old(cache))[partition].remove(key),
            )
        } else {
            cache_contents(*old(cache))
        },
{
    match cache.get(&partition) {
        Some(m) => m.remove(&key).is_some(),
        None => false,
    }
}

/// Drops a whole partition with `DashMap::remove`.
#[verifier::external_body]
fn cache_remove_partition(cache: &mut Cache, partition: PartitionId)
    ensures
        cache_contents(*final(cache)) == cache_contents(*old(cache)).remove(partition),
{
    cache.remove(&partition);
}

/// Lists the records of a partition with `DashMap::iter`, in the map's own
/// order, which depends on hashing.  Trusted to list each record of the
/// partition exactly once.
#[verifier::external_body]
fn cache_partition_entries(cache: &Cache, partition: PartitionId) -> (entries: Vec<(Key, Arc<Record>)>)
    ensures
        entries@.len() == partition_size(cache_contents(*cache), partition),
        forall|k: Key|
            contents_has(cache_contents(*cache), partition, k) ==> exists|i: int|
                0 <= i < entries@.len() && (#[trigger] entries@[i]).0 == k,
        forall|i: int|
            0 <= i < entries@.len() ==> cache_contents(*cache).dom().contains(partition)
                && cache_contents(*cache)[partition].dom().contains((#[trigger] entries@[i]).0)
                && entries@[i].1@ == cache_contents(*cache)[partition][entries@[i].0],
        forall|i: int, j: int|
            0 <= i < j < entries@.len() ==> (#[trigger] entries@[i]).0 != (#[trigger] entries@[j]).0,
{
    match cache.get(&partition) {
        Some(m) => m.iter().map(|e| (*e.key(), e.value().clone())).collect(),
        None => Vec::new(),
    }
}

/// Lists the partitions with `DashMap::iter`, in the map's own order.
/// Trusted to list each partition exactly once.
#[verifier::external_body]
fn cache_partitions(cache: &Cache) -> (ids: Vec<PartitionId>)
    ensures
        forall|p: PartitionId| #[trigger] ids@.contains(p) == cache_contents(*cache).dom().contains(p),
        forall|i: int, j: int| 0 <= i < j < ids@.len() ==> (#[trigger] ids@[i]) != (#[trigger] ids@[j]),
{
    cache.iter().map(|e| *e.key()).collect()
}

/// The records that `put` leaves in the store: the new record, unless the
/// key holds one created later.
pub open spec fn after_put(
    contents: Map<PartitionId, Map<Key, StoredRecord>>,
    key: Key,
    record: StoredRecord,
) -> Map<PartitionId, Map<Key, StoredRecord>> {
    let p = partition_of(key);
    if contents.dom().contains(p) && contents[p].dom().contains(key) && contents[p][key].creation_time_ms
        > record.creation_time_ms {
        contents
    } else {
        contents.insert(
            p,
            (if contents.dom().contains(p) {
                contents[p]
            } else {
                Map::<Key, StoredRecord>::empty()
            }).insert(key, record),
        )
    }
}

/// Whether the record is still alive at `now`: it never expires, or it
/// expires later.
pub open spec fn alive_at(record: StoredRecord, now: u64) -> bool {
    record.expiration_time_ms == 0 || record.expiration_time_ms > now
}

/// The store without `key`, dropping its partition if that empties it.
pub open spec fn without_key(
    contents: Map<PartitionId, Map<Key, StoredRecord>>,
    key: Key,
) -> Map<PartitionId, Map<Key, StoredRecord>> {
    let p = partition_of(key);
    if contents.dom().contains(p) && contents[p].dom().contains(key) {
        if contents[p].remove(key).dom() == Set::<Key>::empty() {
            contents.remove(p)
        } else {
            contents.insert(p, contents[p].remove(key))
        }
    } else {
        contents
    }
}

/// The records of a partition without the given keys.
pub open spec fn without_keys(m: Map<Key, StoredRecord>, keys: Seq<Key>) -> Map<Key, StoredRecord> {
    m.remove_keys(Set::new(|k: Key| keys.contains(k)))
}

/// A record store.
pub struct RuntimeStore {
    cache: Cache,
}

impl Default for RuntimeStore {
    fn default() -> (s: Self)
        ensures
            s.wf(),
            s.contents() == Map::<PartitionId, Map<Key, StoredRecord>>::empty(),
    {
        RuntimeStore::new()
    }
}

impl RuntimeStore {
    /// What the store holds.
    pub closed spec fn contents(&self) -> Map<PartitionId, Map<Key, StoredRecord>> {
        cache_contents(self.cache)
    }

    /// No partition is kept empty.
    pub open spec fn wf(&self) -> bool {
        forall|p: PartitionId| #[trigger]
            self.contents().dom().contains(p) ==> self.contents()[p].dom() != Set::<Key>::empty()
    }

    /// An empty store.
    pub fn new() -> (s: Self)
        ensures
            s.wf(),
            s.contents() == Map::<PartitionId, Map<Key, StoredRecord>>::empty(),
    {
        RuntimeStore { cache: cache_new() }
    }

    /// Whether the store holds any record of the partition.
    pub fn contains_partition(&self, partition: PartitionId) -> (b: bool)
        ensures
            b == self.contents().dom().contains(partition),
    {
        cache_partition_len(&self.cache, partition).is_some()
    }

    /// Removes the given keys from a partition, and the partition itself when
    /// that empties it.
    pub fn remove_from_partition(&mut self, partition: PartitionId, keys: &[Key])
        requires
            old(self).wf(),
        ensures
            final(self).wf(),
            final(self).contents() == if old(self).contents().dom().contains(partition) {
                let rest = without_keys(old(self).contents()[partition], keys@);
                if rest.dom() == Set::<Key>::empty() {
                    old(self).contents().remove(partition)
                } else {
                    old(self).contents().insert(partition, rest)
                }
            } else {
                old(self).contents()
            },
    {
        if cache_partition_len(&self.cache, partition).is_none() {
            return ;
        }
        let ghost start = self.contents();
        let mut i: usize = 0;
        assert(without_keys(start[partition], keys@.take(0)) =~= start[partition]);
        while i < keys.len()
            invariant
                i <= keys@.len(),
                start.dom().contains(partition),
                self.contents() == start.insert(
                    partition,
                    without_keys(start[partition], keys@.take(i as int)),
                ),
                forall|p: PartitionId| #[trigger]
                    start.dom().contains(p) ==> start[p].dom() != Set::<Key>::empty(),
            decreases keys@.len() - i,
        {
            let k = keys[i];
            let removed = cache_remove(&mut self.cache, partition, k);
            proof {
                lemma_take_step_contains(keys@, i as int);
                let a = without_keys(start[partition], keys@.take(i as int));
                let b = without_keys(start[partition], keys@.take(i + 1));
                assert(b =~= a.remove(k));
                if !removed {
                    assert(a.remove(k) =~= a);
                }
            }
            i += 1;
        }
        assert(keys@.take(keys@.len() as int) =~= keys@);
        let n = cache_partition_len(&self.cache, partition);
        proof {
            vstd::set_lib::lemma_set_empty_equivalency_len(self.contents()[partition].dom());
        }
        if n == Some(0usize) {
            cache_remove_partition(&mut self.cache, partition);
        }
    }

    /// Drops the partition when it holds no record.
    pub fn remove_partition_if_empty(&mut self, partition: PartitionId)
        ensures
            old(self).wf() ==> final(self).wf(),
            final(self).contents() == if old(self).contents().dom().contains(partition) && old(
                self,
            ).contents()[partition].dom() == Set::<Key>::empty() {
                old(self).contents().remove(partition)
            } else {
                old(self).contents()
            },
    {
        let n = cache_partition_len(&self.cache, partition);
        proof {
            if self.contents().dom().contains(partition) {
                vstd::set_lib::lemma_set_empty_equivalency_len(self.contents()[partition].dom());
            }
        }
        if n == Some(0usize) {
            cache_remove_partition(&mut self.cache, partition);
        }
    }

    /// Up to `amount` records of the partition, in the store's own order.
    pub fn get_partition_records(&self, partition: PartitionId, amount: usize) -> (records: Vec<
        (Key, Arc<Record>),
    >)
        ensures
            records@.len() == if self.contents().dom().contains(partition) {
                vstd::math::min(amount as int, self.contents()[partition].dom().len() as int)
            } else {
                0
            },
            forall|i: int|
                0 <= i < records@.len() ==> self.contents().dom().contains(partition)
                    && self.contents()[partition].dom().contains((#[trigger] records@[i]).0)
                    && records@[i].1@ == self.contents()[partition][records@[i].0],
            forall|i: int, j: int|
                0 <= i < j < records@.len() ==> (#[trigger] records@[i]).0 != (
                #[trigger] records@[j]).0,
    {
        let mut entries = cache_partition_entries(&self.cache, partition);
        if entries.len() > amount {
            entries.truncate(amount);
        }
        entries
    }

    /// The partitions that hold records but are not among the expected ones.
    pub fn unexpected_partitions(&self, expected: &SortedSet<PartitionId>) -> (ids: Vec<PartitionId>)
        requires
            expected.wf(),
        ensures
            forall|p: PartitionId| #[trigger]
                ids@.contains(p) == (self.contents().dom().contains(p) && !expected@.contains(p)
                    && self.contents()[p].dom() != Set::<Key>::empty()),
            forall|i: int, j: int| 0 <= i < j < ids@.len() ==> (#[trigger] ids@[i]) != (#[trigger] ids@[j]),
    {
        let all = cache_partitions(&self.cache);
        let mut ids: Vec<PartitionId> = Vec::new();
        let mut i: usize = 0;
        while i < all.len()
            invariant
                expected.wf(),
                i <= all@.len(),
                forall|p: PartitionId| #[trigger] all@.contains(p) == self.contents().dom().contains(p),
                forall|a: int, b: int| 0 <= a < b < all@.len() ==> (#[trigger] all@[a]) != (#[trigger] all@[b]),
                forall|p: PartitionId| #[trigger]
                    ids@.contains(p) == (all@.take(i as int).contains(p) && !expected@.contains(p)
                        && self.contents()[p].dom() != Set::<Key>::empty()),
                forall|a: int, b: int| 0 <= a < b < ids@.len() ==> (#[trigger] ids@[a]) != (#[trigger] ids@[b]),
                forall|a: int| 0 <= a < ids@.len() ==> all@.take(i as int).contains(#[trigger] ids@[a]),
            decreases all@.len() - i,
        {
            let p = all[i];
            proof {
                assert(all@.contains(p));
            }
            let n = cache_partition_len(&self.cache, p);
            proof {
                if self.contents().dom().contains(p) {
                    vstd::set_lib::lemma_set_empty_equivalency_len(self.contents()[p].dom());
                }
                assert forall|y: PartitionId| #[trigger]
                    all@.take(i + 1).contains(y) == (all@.take(i as int).contains(y) || y == p) by {
                    if y == p {
                        assert(all@.take(i + 1)[i as int] == y);
                    }
                }
                assert(!all@.take(i as int).contains(p)) by {
                }
            }
            let keep = match n {
                Some(count) => count > 0 && !expected.contains(&p),
                None => false,
            };
            if keep {
                let ghost before = ids@;
                ids.push(p);
                proof {
                    assert forall|a: int, b: int| 0 <= a < b < ids@.len() implies (#[trigger] ids@[a])
                        != (#[trigger] ids@[b]) by {
                    }
                    assert forall|q: PartitionId| #[trigger] ids@.contains(q) == (all@.take(i + 1).contains(q)
                        && !expected@.contains(q) && self.contents()[q].dom() != Set::<Key>::empty()) by {
                        if before.contains(q) {
                            let t = choose|t: int| 0 <= t < before.len() && before[t] == q;
                            assert(ids@[t] == q);
                        }
                        if q == p {
                            assert(ids@[ids@.len() - 1] == p);
                        }
                    }
                }
            }
            i += 1;
        }
        assert(all@.take(all@.len() as int) =~= all@);
        ids
    }

    /// Removes the record of `key`, and its partition when that empties it.
    pub fn delete(&mut self, key: Key)
        requires
            old(self).wf(),
        ensures
            final(self).wf(),
            final(self).contents() == without_key(old(self).contents(), key),
    {
        let partition = PartitionId::from(key);
        let removed = cache_remove(&mut self.cache, partition, key);
        if removed {
            self.remove_partition_if_empty(partition);
        }
        proof {
            assert forall|p: PartitionId| #[trigger] self.contents().dom().contains(p) implies self.contents()[p].dom()
                != Set::<Key>::empty() by {
                if p != partition {
                    assert(old(self).contents().dom().contains(p));
                }
            }
        }
    }

    /// The record of `key` as of `now`.  An expired record is removed, with
    /// its partition when that empties it.
    pub fn get_at(&mut self, key: Key, now: u64) -> (res: Option<Arc<Record>>)
        requires
            old(self).wf(),
        ensures
            final(self).wf(),
            ({
                let p = partition_of(key);
                let c = old(self).contents();
                if c.dom().contains(p) && c[p].dom().contains(key) {
                    if alive_at(c[p][key], now) {
                        &&& res matches Some(r) && r@ == c[p][key]
                        &&& final(self).contents() == c
                    } else {
                        &&& res is None
                        &&& final(self).contents() == without_key(c, key)
                    }
                } else {
                    &&& res is None
                    &&& final(self).contents() == c
                }
            }),
    {
        let partition = PartitionId::from(key);
        match cache_get(&self.cache, partition, key) {
            Some(record) => {
                let exp = record.expiration_time_ms;
                if exp == 0 || exp > now {
                    Some(record)
                } else {
                    cache_remove(&mut self.cache, partition, key);
                    self.remove_partition_if_empty(partition);
                    proof {
                        assert forall|p: PartitionId| #[trigger] self.contents().dom().contains(p) implies self.contents()[p].dom()
                            != Set::<Key>::empty() by {
                            if p != partition {
                                assert(old(self).contents().dom().contains(p));
                            }
                        }
                    }
                    None
                }
            },
            None => None,
        }
    }

    /// The record of `key`, reading the clock for its expiry.
    pub fn get(&mut self, key: Key) -> (res: Option<Arc<Record>>)
        requires
            old(self).wf(),
        ensures
            final(self).wf(),
            exists|now: u64| #[trigger] get_step(old(self).contents(), final(self).contents(), key, res, now),
    {
        let now = crate::common::now_millis();
        let res = self.get_at(key, now);
        assert(get_step(old(self).contents(), self.contents(), key, res, now));
        res
    }

    /// Stores `record` under `key`, unless the key holds a record created later.
    pub fn put(&mut self, key: Key, record: Record)
        requires
            old(self).wf(),
        ensures
            final(self).wf(),
            final(self).contents() == after_put(old(self).contents(), key, record@),
    {
        let partition = PartitionId::from(key);
        let store = match cache_get(&self.cache, partition, key) {
            Some(existing) => existing.creation_time_ms <= record.creation_time_ms,
            None => true,
        };
        if store {
            cache_insert(&mut self.cache, partition, key, Arc::new(record));
            proof {
                assert forall|p: PartitionId| #[trigger] self.contents().dom().contains(p) implies self.contents()[p].dom()
                    != Set::<Key>::empty() by {
                    if p == partition {
                        assert(self.contents()[p].dom().contains(key));
                    } else {
                        assert(old(self).contents().dom().contains(p));
                    }
                }
            }
        }
    }
}

/// The outcome of a read of `key` at time `now`.
pub open spec fn get_step(
    contents: Map<PartitionId, Map<Key, StoredRecord>>,
    final_contents: Map<PartitionId, Map<Key, StoredRecord>>,
    key: Key,
    res: Option<Arc<Record>>,
    now: u64,
) -> bool {
    let p = partition_of(key);
    if contents.dom().contains(p) && contents[p].dom().contains(key) {
        if alive_at(contents[p][key], now) {
            &&& res matches Some(r) && r@ == contents[p][key]
            &&& final_contents == contents
        } else {
            &&& res is None
            &&& final_contents == without_key(contents, key)
        }
    } else {
        &&& res is None
        &&& final_contents == contents
    }
}

} // verus!

verus! {

/// A read of `key` right after a put of a record that is still alive, where
/// the store held no record of `key` created later, gives back that record
/// and leaves the store as it is.
pub proof fn lemma_read_your_write(
    contents: Map<PartitionId, Map<Key, StoredRecord>>,
    key: Key,
    record: StoredRecord,
    now: u64,
    res: Option<Arc<Record>>,
    final_contents: Map<PartitionId, Map<Key, StoredRecord>>,
)
    requires
        !(contents_has(contents, partition_of(key), key)
            && contents[partition_of(key)][key].creation_time_ms > record.creation_time_ms),
        alive_at(record, now),
        get_step(after_put(contents, key, record), final_contents, key, res, now),
    ensures
        res matches Some(r) && r@ == record,
        final_contents == after_put(contents, key, record),
{
}

/// After a put, the store holds a record for the key: the one it held if that
/// was created later, the new one otherwise.  So the record kept is never
/// older than either of the two.
pub proof fn lemma_newest_record_wins(
    contents: Map<PartitionId, Map<Key, StoredRecord>>,
    key: Key,
    record: StoredRecord,
)
    ensures
        contents_has(after_put(contents, key, record), partition_of(key), key),
        ({
            let p = partition_of(key);
            let kept = after_put(contents, key, record)[p][key];
            &&& kept == record || (contents_has(contents, p, key) && kept == contents[p][key])
            &&& kept.creation_time_ms >= record.creation_time_ms
            &&& contents_has(contents, p, key) ==> kept.creation_time_ms
                >= contents[p][key].creation_time_ms
        }),
{
}

/// A put touches no other key.
pub proof fn lemma_put_keeps_other_keys(
    contents: Map<PartitionId, Map<Key, StoredRecord>>,
    key: Key,
    record: StoredRecord,
    other: Key,
)
    requires
        other != key,
    ensures
        contents_has(after_put(contents, key, record), partition_of(other), other)
            == contents_has(contents, partition_of(other), other),
        contents_has(contents, partition_of(other), other) ==> after_put(
            contents,
            key,
            record,
        )[partition_of(other)][other] == contents[partition_of(other)][other],
{
}

/// Putting the same record twice leaves the store as putting it once.
pub proof fn lemma_put_idempotent(
    contents: Map<PartitionId, Map<Key, StoredRecord>>,
    key: Key,
    record: StoredRecord,
)
    ensures
        after_put(after_put(contents, key, record), key, record) == after_put(contents, key, record),
{
    let once = after_put(contents, key, record);
    let twice = after_put(once, key, record);
    assert forall|q: PartitionId| twice.dom().contains(q) implies #[trigger] twice[q] == once[q] by {
    }
}

/// Two records of one key, created at different times, leave the same store
/// whichever of them arrives first.
pub proof fn lemma_put_order_irrelevant(
    contents: Map<PartitionId, Map<Key, StoredRecord>>,
    key: Key,
    a: StoredRecord,
    b: StoredRecord,
)
    requires
        a.creation_time_ms != b.creation_time_ms,
    ensures
        after_put(after_put(contents, key, a), key, b) == after_put(
            after_put(contents, key, b),
            key,
            a,
        ),
{
    let p = partition_of(key);
    let ab = after_put(after_put(contents, key, a), key, b);
    let ba = after_put(after_put(contents, key, b), key, a);
    assert forall|q: PartitionId| ab.dom().contains(q) implies #[trigger] ab[q] == ba[q] by {
    }
}

/// Records of two different keys leave the same store whichever arrives
/// first.
pub proof fn lemma_puts_of_distinct_keys_commute(
    contents: Map<PartitionId, Map<Key, StoredRecord>>,
    k1: Key,
    r1: StoredRecord,
    k2: Key,
    r2: StoredRecord,
)
    requires
        k1 != k2,
    ensures
        after_put(after_put(contents, k1, r1), k2, r2) == after_put(
            after_put(contents, k2, r2),
            k1,
            r1,
        ),
{
    let x = after_put(after_put(contents, k1, r1), k2, r2);
    let y = after_put(after_put(contents, k2, r2), k1, r1);
    assert forall|q: PartitionId| x.dom().contains(q) implies #[trigger] x[q] == y[q] by {
    }
}

/// Nothing is read of a key after it was deleted.
pub proof fn lemma_read_after_delete(
    contents: Map<PartitionId, Map<Key, StoredRecord>>,
    key: Key,
    now: u64,
    res: Option<Arc<Record>>,
    final_contents: Map<PartitionId, Map<Key, StoredRecord>>,
)
    requires
        get_step(without_key(contents, key), final_contents, key, res, now),
    ensures
        res is None,
        final_contents == without_key(contents, key),
{
}

} // verus!
